//! Reading and editing the layer tree through its identifiers.

use vstd::prelude::*;
use crate::identifier::{LayerNodeIdentifier, NodeRelations};
use crate::metadata::DocumentMetadata;
use crate::model::{
    Links, Preorder, rel, root_id, tree_inv, place_ok, parent_ok, children_ok, next_ok,
    previous_ok, lemma_next_is_sibling, lemma_first_is_child,
};
use crate::insertion::{insert_links, insert_model, gap, lemma_insert};
use crate::children::{child_put, lemma_insert_child};
use crate::walk::children_of;
use crate::deletion::{
    delete_links, delete_model, subtree_set, in_subtree, spliced, lemma_delete,
    lemma_delete_facts, };

verus! {

/// The map with a record for `x`: its own, or an unlinked one.
pub open spec fn touch(l: Links, x: LayerNodeIdentifier) -> Links {
    l.insert(x, rel(l, x))
}

/// The links after `new` has become the last child of `parent`.
pub open spec fn push_child_links(
    l: Links,
    parent: LayerNodeIdentifier,
    new: LayerNodeIdentifier,
) -> Links {
    let record = rel(l, parent);
    let l1 = l.insert(
        parent,
        record.set_last(Some(new)).set_first(
            if record.first_child is None {
                Some(new)
            } else {
                record.first_child
            },
        ),
    );
    let l2 = match record.last_child {
        Some(o) => l1.insert(o, rel(l1, o).set_next(Some(new))),
        None => l1,
    };
    let l3 = l2.insert(new, rel(l2, new).set_previous(record.last_child));
    l3.insert(new, rel(l3, new).set_parent(Some(parent)))
}

/// The links after `new` has become the first child of `parent`.
pub open spec fn push_front_child_links(
    l: Links,
    parent: LayerNodeIdentifier,
    new: LayerNodeIdentifier,
) -> Links {
    let record = rel(l, parent);
    let l1 = l.insert(
        parent,
        record.set_first(Some(new)).set_last(
            if record.last_child is None {
                Some(new)
            } else {
                record.last_child
            },
        ),
    );
    let l2 = match record.first_child {
        Some(o) => l1.insert(o, rel(l1, o).set_previous(Some(new))),
        None => l1,
    };
    let l3 = l2.insert(new, rel(l2, new).set_next(record.first_child));
    l3.insert(new, rel(l3, new).set_parent(Some(parent)))
}

/// The links after `new` has been put right before `anchor` among its siblings.
pub open spec fn add_before_links(
    l: Links,
    anchor: LayerNodeIdentifier,
    new: LayerNodeIdentifier,
) -> Links {
    let l1 = l.insert(new, rel(l, new).set_next(Some(anchor)));
    let l2 = l1.insert(new, rel(l1, new).set_parent(rel(l1, anchor).parent));
    let old_previous = rel(l2, anchor).previous_sibling;
    let l3 = l2.insert(anchor, rel(l2, anchor).set_previous(Some(new)));
    match old_previous {
        Some(o) => {
            let l4 = l3.insert(o, rel(l3, o).set_next(Some(new)));
            l4.insert(new, rel(l4, new).set_previous(Some(o)))
        },
        None => match rel(l3, anchor).parent {
            Some(p) => if rel(l3, p).first_child == Some(anchor) {
                l3.insert(p, rel(l3, p).set_first(Some(new)))
            } else {
                touch(l3, p)
            },
            None => l3,
        },
    }
}

/// The links after `new` has been put right after `anchor` among its siblings.
pub open spec fn add_after_links(
    l: Links,
    anchor: LayerNodeIdentifier,
    new: LayerNodeIdentifier,
) -> Links {
    let l1 = l.insert(new, rel(l, new).set_previous(Some(anchor)));
    let l2 = l1.insert(new, rel(l1, new).set_parent(rel(l1, anchor).parent));
    let old_next = rel(l2, anchor).next_sibling;
    let l3 = l2.insert(anchor, rel(l2, anchor).set_next(Some(new)));
    match old_next {
        Some(o) => {
            let l4 = l3.insert(o, rel(l3, o).set_previous(Some(new)));
            l4.insert(new, rel(l4, new).set_next(Some(o)))
        },
        None => match rel(l3, anchor).parent {
            Some(p) => if rel(l3, p).last_child == Some(anchor) {
                l3.insert(p, rel(l3, p).set_last(Some(new)))
            } else {
                touch(l3, p)
            },
            None => l3,
        },
    }
}

/// Appending a child to a layer of a tree gives a tree.
pub proof fn lemma_push_child(
    l: Links,
    t: Preorder,
    parent: LayerNodeIdentifier,
    new: LayerNodeIdentifier,
)
    requires
        tree_inv(l, t),
        l.contains_key(parent),
        !l.contains_key(new),
    ensures
        tree_inv(push_child_links(l, parent, new), insert_model(t, parent, t.e(parent) + 1, new)),
        push_child_links(l, parent, new).dom() == l.dom().insert(new),
        push_child_links(l, parent, new) == insert_links(l, parent, l[parent].last_child, None, new),
{
    assert(place_ok(l, t, parent));
    assert(children_ok(l, t, parent));
    let left = l[parent].last_child;
    if left is Some {
        assert(next_ok(l, t, left.unwrap()));
    }
    assert(gap(l, t, parent, left, None, t.e(parent) + 1));
    lemma_insert(l, t, parent, left, None, t.e(parent) + 1, new);
    assert(push_child_links(l, parent, new) =~= insert_links(l, parent, left, None, new));
    assert(push_child_links(l, parent, new).dom() =~= l.dom().insert(new));
}

/// Putting a child in front of the children of a layer of a tree gives a tree.
pub proof fn lemma_push_front_child(
    l: Links,
    t: Preorder,
    parent: LayerNodeIdentifier,
    new: LayerNodeIdentifier,
)
    requires
        tree_inv(l, t),
        l.contains_key(parent),
        !l.contains_key(new),
    ensures
        tree_inv(
            push_front_child_links(l, parent, new),
            insert_model(t, parent, t.i(parent) + 1, new),
        ),
        child_put(
            l,
            t,
            push_front_child_links(l, parent, new),
            insert_model(t, parent, t.i(parent) + 1, new),
            parent,
            new,
            0,
        ),
        push_front_child_links(l, parent, new).dom() == l.dom().insert(new),
{
    assert(place_ok(l, t, parent));
    assert(children_ok(l, t, parent));
    let right = l[parent].first_child;
    assert(gap(l, t, parent, None, right, t.i(parent) + 1));
    lemma_insert(l, t, parent, None, right, t.i(parent) + 1, new);
    if t.size[parent] > 0 {
        lemma_first_is_child(l, t, parent);
    }
    assert(push_front_child_links(l, parent, new) =~= insert_links(l, parent, None, right, new));
    assert(push_front_child_links(l, parent, new).dom() =~= l.dom().insert(new));
    let at = lemma_insert_child(l, t, parent, None, right, t.i(parent) + 1, new);
}

/// Putting a layer before a layer of a tree that is not the root gives a tree.
pub proof fn lemma_add_before(
    l: Links,
    t: Preorder,
    anchor: LayerNodeIdentifier,
    new: LayerNodeIdentifier,
) -> (at: int)
    requires
        tree_inv(l, t),
        l.contains_key(anchor),
        anchor != root_id(),
        !l.contains_key(new),
    ensures
        tree_inv(
            add_before_links(l, anchor, new),
            insert_model(t, l[anchor].parent.unwrap(), t.i(anchor), new),
        ),
        0 <= at < children_of(l, t, l[anchor].parent.unwrap()).len(),
        children_of(l, t, l[anchor].parent.unwrap())[at] == anchor,
        child_put(
            l,
            t,
            add_before_links(l, anchor, new),
            insert_model(t, l[anchor].parent.unwrap(), t.i(anchor), new),
            l[anchor].parent.unwrap(),
            new,
            at,
        ),
        add_before_links(l, anchor, new).dom() == l.dom().insert(new),
{
    assert(place_ok(l, t, anchor));
    assert(parent_ok(l, t, anchor));
    assert(previous_ok(l, t, anchor));
    let p = l[anchor].parent.unwrap();
    assert(place_ok(l, t, p));
    assert(children_ok(l, t, p));
    let left = l[anchor].previous_sibling;
    if left is Some {
        let s = left.unwrap();
        assert(place_ok(l, t, s));
        lemma_next_is_sibling(l, t, s);
    }
    assert(gap(l, t, p, left, Some(anchor), t.i(anchor)));
    lemma_insert(l, t, p, left, Some(anchor), t.i(anchor), new);
    assert(add_before_links(l, anchor, new) =~= insert_links(l, p, left, Some(anchor), new));
    assert(add_before_links(l, anchor, new).dom() =~= l.dom().insert(new));
    lemma_insert_child(l, t, p, left, Some(anchor), t.i(anchor), new)
}

/// Putting a layer after a layer of a tree that is not the root gives a tree.
pub proof fn lemma_add_after(
    l: Links,
    t: Preorder,
    anchor: LayerNodeIdentifier,
    new: LayerNodeIdentifier,
) -> (at: int)
    requires
        tree_inv(l, t),
        l.contains_key(anchor),
        anchor != root_id(),
        !l.contains_key(new),
    ensures
        tree_inv(
            add_after_links(l, anchor, new),
            insert_model(t, l[anchor].parent.unwrap(), t.e(anchor) + 1, new),
        ),
        0 <= at < children_of(l, t, l[anchor].parent.unwrap()).len(),
        children_of(l, t, l[anchor].parent.unwrap())[at] == anchor,
        child_put(
            l,
            t,
            add_after_links(l, anchor, new),
            insert_model(t, l[anchor].parent.unwrap(), t.e(anchor) + 1, new),
            l[anchor].parent.unwrap(),
            new,
            at + 1,
        ),
        add_after_links(l, anchor, new).dom() == l.dom().insert(new),
{
    assert(place_ok(l, t, anchor));
    assert(parent_ok(l, t, anchor));
    assert(next_ok(l, t, anchor));
    let p = l[anchor].parent.unwrap();
    assert(place_ok(l, t, p));
    assert(children_ok(l, t, p));
    let right = l[anchor].next_sibling;
    if right is Some {
        lemma_next_is_sibling(l, t, anchor);
    } else {
        crate::model::lemma_same_end(l, t, l[p].last_child.unwrap(), anchor);
    }
    assert(gap(l, t, p, Some(anchor), right, t.e(anchor) + 1));
    lemma_insert(l, t, p, Some(anchor), right, t.e(anchor) + 1, new);
    assert(add_after_links(l, anchor, new) =~= insert_links(l, p, Some(anchor), right, new));
    assert(add_after_links(l, anchor, new).dom() =~= l.dom().insert(new));
    lemma_insert_child(l, t, p, Some(anchor), right, t.e(anchor) + 1, new) - 1
}

impl LayerNodeIdentifier {
    /// The parent of this layer, if it has one.
    pub fn parent(self, document_metadata: &DocumentMetadata) -> (link: Option<
        LayerNodeIdentifier,
    >)
        ensures
            link == rel(document_metadata@, self).parent,
    {
        document_metadata.relations_or_default(self).parent
    }

    /// The sibling right before this layer, if there is one.
    pub fn previous_sibling(self, document_metadata: &DocumentMetadata) -> (link: Option<
        LayerNodeIdentifier,
    >)
        ensures
            link == rel(document_metadata@, self).previous_sibling,
    {
        document_metadata.relations_or_default(self).previous_sibling
    }

    /// The sibling right after this layer, if there is one.
    pub fn next_sibling(self, document_metadata: &DocumentMetadata) -> (link: Option<
        LayerNodeIdentifier,
    >)
        ensures
            link == rel(document_metadata@, self).next_sibling,
    {
        document_metadata.relations_or_default(self).next_sibling
    }

    /// The first child of this layer, if it has children.
    pub fn first_child(self, document_metadata: &DocumentMetadata) -> (link: Option<
        LayerNodeIdentifier,
    >)
        ensures
            link == rel(document_metadata@, self).first_child,
    {
        document_metadata.relations_or_default(self).first_child
    }

    /// The last child of this layer, if it has children.
    pub fn last_child(self, document_metadata: &DocumentMetadata) -> (link: Option<
        LayerNodeIdentifier,
    >)
        ensures
            link == rel(document_metadata@, self).last_child,
    {
        document_metadata.relations_or_default(self).last_child
    }

    /// Whether this layer has children.
    pub fn has_children(self, document_metadata: &DocumentMetadata) -> (has: bool)
        ensures
            has == rel(document_metadata@, self).first_child is Some,
    {
        self.first_child(document_metadata).is_some()
    }

    /// Whether this layer is in the tree.
    pub fn exists_in(&self, document_metadata: &DocumentMetadata) -> (present: bool)
        ensures
            present == document_metadata@.contains_key(*self),
    {
        document_metadata.get_relations(*self).is_some()
    }

    /// Makes `new` the first child of this layer.
    ///
    /// A layer that does not exist yet is made on the way, linked to nothing
    /// but its new child. Where this layer is in a tree, the result is a tree.
    pub fn push_front_child(self, document_metadata: &mut DocumentMetadata, new: LayerNodeIdentifier)
        requires
            !old(document_metadata)@.contains_key(new),
        ensures
            final(document_metadata)@ == push_front_child_links(old(document_metadata)@, self, new),
            final(document_metadata).same_tags(old(document_metadata)),
            old(document_metadata).wf() && old(document_metadata)@.contains_key(self) ==> {
                &&& final(document_metadata).wf()
                &&& final(document_metadata).listing() == insert_model(
                    old(document_metadata).listing(),
                    self,
                    old(document_metadata).listing().i(self) + 1,
                    new,
                )
                &&& final(document_metadata)@.dom() == old(document_metadata)@.dom().insert(new)
                &&& final(document_metadata).child_put_at(old(document_metadata), self, new, 0)
            },
    {
        let ghost l0 = document_metadata@;
        let ghost t0 = document_metadata.listing();
        let parent = document_metadata.relations_or_default(self);
        let old_first_child = parent.first_child;
        let last_child = match parent.last_child {
            Some(last) => Some(last),
            None => Some(new),
        };
        document_metadata.set_relations(
            self,
            NodeRelations {
                parent: parent.parent,
                previous_sibling: parent.previous_sibling,
                next_sibling: parent.next_sibling,
                first_child: Some(new),
                last_child,
            },
        );
        if let Some(old_first) = old_first_child {
            let mut relations = document_metadata.relations_or_default(old_first);
            relations.previous_sibling = Some(new);
            document_metadata.set_relations(old_first, relations);
        }
        let mut relations = document_metadata.relations_or_default(new);
        relations.next_sibling = old_first_child;
        document_metadata.set_relations(new, relations);
        let mut relations = document_metadata.relations_or_default(new);
        relations.parent = Some(self);
        document_metadata.set_relations(new, relations);
        proof {
            if tree_inv(l0, t0) && l0.contains_key(self) {
                lemma_push_front_child(l0, t0, self, new);
            }
        }
        document_metadata.set_listing(Ghost(insert_model(t0, self, t0.i(self) + 1, new)));
    }

    /// Makes `new` the last child of this layer.
    ///
    /// A layer that does not exist yet is made on the way, linked to nothing
    /// but its new child. Where this layer is in a tree, the result is a tree.
    pub fn push_child(self, document_metadata: &mut DocumentMetadata, new: LayerNodeIdentifier)
        requires
            !old(document_metadata)@.contains_key(new),
        ensures
            final(document_metadata)@ == push_child_links(old(document_metadata)@, self, new),
            final(document_metadata).same_tags(old(document_metadata)),
            old(document_metadata).wf() && old(document_metadata)@.contains_key(self) ==> {
                &&& final(document_metadata).wf()
                &&& final(document_metadata).listing() == insert_model(
                    old(document_metadata).listing(),
                    self,
                    old(document_metadata).listing().e(self) + 1,
                    new,
                )
                &&& final(document_metadata)@.dom() == old(document_metadata)@.dom().insert(new)
                &&& final(document_metadata).spec_children(self) == old(document_metadata).spec_children(self).push(new)
                &&& final(document_metadata).spec_children(new) == Seq::<
                    LayerNodeIdentifier,
                >::empty()
                &&& forall|other: LayerNodeIdentifier|
                    old(document_metadata)@.contains_key(other) && other != self
                        ==> #[trigger] final(document_metadata).spec_children(other) == old(document_metadata).spec_children(other)
            },
    {
        let ghost l0 = document_metadata@;
        let ghost t0 = document_metadata.listing();
        let parent = document_metadata.relations_or_default(self);
        let old_last_child = parent.last_child;
        let first_child = match parent.first_child {
            Some(first) => Some(first),
            None => Some(new),
        };
        document_metadata.set_relations(
            self,
            NodeRelations {
                parent: parent.parent,
                previous_sibling: parent.previous_sibling,
                next_sibling: parent.next_sibling,
                first_child,
                last_child: Some(new),
            },
        );
        if let Some(old_last) = old_last_child {
            let mut relations = document_metadata.relations_or_default(old_last);
            relations.next_sibling = Some(new);
            document_metadata.set_relations(old_last, relations);
        }
        let mut relations = document_metadata.relations_or_default(new);
        relations.previous_sibling = old_last_child;
        document_metadata.set_relations(new, relations);
        let mut relations = document_metadata.relations_or_default(new);
        relations.parent = Some(self);
        document_metadata.set_relations(new, relations);
        proof {
            if tree_inv(l0, t0) && l0.contains_key(self) {
                lemma_push_child(l0, t0, self, new);
                crate::children::lemma_append_child(l0, t0, self, new);
            }
        }
        document_metadata.set_listing(Ghost(insert_model(t0, self, t0.e(self) + 1, new)));
    }

    /// Puts `new` right before this layer among its siblings, under the same
    /// parent.
    ///
    /// Where this layer is in a tree and is not the root, the result is a tree.
    pub fn add_before(self, document_metadata: &mut DocumentMetadata, new: LayerNodeIdentifier)
        requires
            !old(document_metadata)@.contains_key(new),
        ensures
            final(document_metadata)@ == add_before_links(old(document_metadata)@, self, new),
            final(document_metadata).same_tags(old(document_metadata)),
            old(document_metadata).wf() && old(document_metadata)@.contains_key(self) && self
                != root_id() ==> {
                let parent = old(document_metadata)@[self].parent.unwrap();
                &&& final(document_metadata).wf()
                &&& final(document_metadata).listing() == insert_model(
                    old(document_metadata).listing(),
                    parent,
                    old(document_metadata).listing().i(self),
                    new,
                )
                &&& final(document_metadata)@.dom() == old(document_metadata)@.dom().insert(new)
                &&& exists|at: int|
                    0 <= at < old(document_metadata).spec_children(parent).len() && #[trigger] old(document_metadata).spec_children(parent)[at] == self && final(document_metadata).child_put_at(
                        old(document_metadata),
                        parent,
                        new,
                        at,
                    )
            },
    {
        let ghost l0 = document_metadata@;
        let ghost t0 = document_metadata.listing();
        let mut relations = document_metadata.relations_or_default(new);
        relations.next_sibling = Some(self);
        document_metadata.set_relations(new, relations);
        let mut relations = document_metadata.relations_or_default(new);
        relations.parent = self.parent(document_metadata);
        document_metadata.set_relations(new, relations);
        let mut relations = document_metadata.relations_or_default(self);
        let old_previous_sibling = relations.previous_sibling;
        relations.previous_sibling = Some(new);
        document_metadata.set_relations(self, relations);
        if let Some(old_previous) = old_previous_sibling {
            let mut relations = document_metadata.relations_or_default(old_previous);
            relations.next_sibling = Some(new);
            document_metadata.set_relations(old_previous, relations);
            let mut relations = document_metadata.relations_or_default(new);
            relations.previous_sibling = Some(old_previous);
            document_metadata.set_relations(new, relations);
        } else if let Some(parent) = self.parent(document_metadata) {
            let mut relations = document_metadata.relations_or_default(parent);
            if relations.first_child == Some(self) {
                relations.first_child = Some(new);
            }
            document_metadata.set_relations(parent, relations);
        }
        let ghost mut at: int = 0;
        proof {
            if tree_inv(l0, t0) && l0.contains_key(self) && self != root_id() {
                at = lemma_add_before(l0, t0, self, new);
            }
        }
        document_metadata.set_listing(
            Ghost(insert_model(t0, l0[self].parent.unwrap(), t0.i(self), new)),
        );
        proof {
            if tree_inv(l0, t0) && l0.contains_key(self) && self != root_id() {
                let parent = l0[self].parent.unwrap();
                assert(old(document_metadata).spec_children(parent)[at] == self);
                assert(document_metadata.child_put_at(old(document_metadata), parent, new, at));
            }
        }
    }

    /// Puts `new` right after this layer among its siblings, under the same
    /// parent.
    ///
    /// Where this layer is in a tree and is not the root, the result is a tree.
    pub fn add_after(self, document_metadata: &mut DocumentMetadata, new: LayerNodeIdentifier)
        requires
            !old(document_metadata)@.contains_key(new),
        ensures
            final(document_metadata)@ == add_after_links(old(document_metadata)@, self, new),
            final(document_metadata).same_tags(old(document_metadata)),
            old(document_metadata).wf() && old(document_metadata)@.contains_key(self) && self
                != root_id() ==> {
                let parent = old(document_metadata)@[self].parent.unwrap();
                &&& final(document_metadata).wf()
                &&& final(document_metadata).listing() == insert_model(
                    old(document_metadata).listing(),
                    parent,
                    old(document_metadata).listing().e(self) + 1,
                    new,
                )
                &&& final(document_metadata)@.dom() == old(document_metadata)@.dom().insert(new)
                &&& exists|at: int|
                    0 <= at < old(document_metadata).spec_children(parent).len() && #[trigger] old(document_metadata).spec_children(parent)[at] == self && final(document_metadata).child_put_at(
                        old(document_metadata),
                        parent,
                        new,
                        at + 1,
                    )
            },
    {
        let ghost l0 = document_metadata@;
        let ghost t0 = document_metadata.listing();
        let mut relations = document_metadata.relations_or_default(new);
        relations.previous_sibling = Some(self);
        document_metadata.set_relations(new, relations);
        let mut relations = document_metadata.relations_or_default(new);
        relations.parent = self.parent(document_metadata);
        document_metadata.set_relations(new, relations);
        let mut relations = document_metadata.relations_or_default(self);
        let old_next_sibling = relations.next_sibling;
        relations.next_sibling = Some(new);
        document_metadata.set_relations(self, relations);
        if let Some(old_next) = old_next_sibling {
            let mut relations = document_metadata.relations_or_default(old_next);
            relations.previous_sibling = Some(new);
            document_metadata.set_relations(old_next, relations);
            let mut relations = document_metadata.relations_or_default(new);
            relations.next_sibling = Some(old_next);
            document_metadata.set_relations(new, relations);
        } else if let Some(parent) = self.parent(document_metadata) {
            let mut relations = document_metadata.relations_or_default(parent);
            if relations.last_child == Some(self) {
                relations.last_child = Some(new);
            }
            document_metadata.set_relations(parent, relations);
        }
        let ghost mut at: int = 0;
        proof {
            if tree_inv(l0, t0) && l0.contains_key(self) && self != root_id() {
                at = lemma_add_after(l0, t0, self, new);
            }
        }
        document_metadata.set_listing(
            Ghost(insert_model(t0, l0[self].parent.unwrap(), t0.e(self) + 1, new)),
        );
        proof {
            if tree_inv(l0, t0) && l0.contains_key(self) && self != root_id() {
                let parent = l0[self].parent.unwrap();
                assert(old(document_metadata).spec_children(parent)[at] == self);
                assert(document_metadata.child_put_at(old(document_metadata), parent, new, at + 1));
            }
        }
    }

    /// Takes this layer and everything below it out of the tree: its siblings
    /// are linked to each other, its parent's first and last child are set
    /// anew where this layer was one of them, and the records of the layer and
    /// of its descendants are dropped. A layer that does not exist changes
    /// nothing. The result is a tree again, unless the root itself was deleted.
    pub fn delete(self, document_metadata: &mut DocumentMetadata)
        requires
            old(document_metadata).wf(),
        ensures
            final(document_metadata)@ == delete_links(
                old(document_metadata)@,
                old(document_metadata).spec_descendants(self).to_set().insert(self),
                self,
            ),
            final(document_metadata).same_tags(old(document_metadata)),
            self != root_id() ==> final(document_metadata).wf(),
            final(document_metadata).listing() == (if old(document_metadata)@.contains_key(self) {
                delete_model(old(document_metadata).listing(), self)
            } else {
                old(document_metadata).listing()
            }),
            old(document_metadata)@.contains_key(self) && self != root_id() ==> exists|at: int|
                #[trigger] old(document_metadata).spec_children(
                    old(document_metadata)@[self].parent.unwrap(),
                )[at] == self && final(document_metadata).child_taken_at(
                    old(document_metadata),
                    old(document_metadata)@[self].parent.unwrap(),
                    at,
                ),
    {
        let ghost l0 = document_metadata@;
        let ghost t0 = document_metadata.listing();
        let previous_sibling = self.previous_sibling(document_metadata);
        let next_sibling = self.next_sibling(document_metadata);
        let parent = self.parent(document_metadata);
        let below = self.decendants(document_metadata).collect();
        let ghost removed = below@.to_set().insert(self);
        proof {
            assert(place_ok(l0, t0, root_id()));
            if l0.contains_key(self) {
                assert(place_ok(l0, t0, self));
                if self != root_id() {
                    lemma_delete_facts(l0, t0, self);
                    assert(place_ok(l0, t0, parent.unwrap()));
                    if previous_sibling is Some {
                        assert(place_ok(l0, t0, previous_sibling.unwrap()));
                    }
                    if next_sibling is Some {
                        assert(place_ok(l0, t0, next_sibling.unwrap()));
                    }
                }
            }
        }
        if let Some(previous) = previous_sibling {
            let mut relations = document_metadata.relations_or_default(previous);
            relations.next_sibling = next_sibling;
            document_metadata.set_relations(previous, relations);
        }
        if let Some(next) = next_sibling {
            let mut relations = document_metadata.relations_or_default(next);
            relations.previous_sibling = previous_sibling;
            document_metadata.set_relations(next, relations);
        }
        if let Some(parent) = parent {
            let mut relations = document_metadata.relations_or_default(parent);
            if relations.first_child == Some(self) {
                relations.first_child = next_sibling;
            }
            if relations.last_child == Some(self) {
                relations.last_child = previous_sibling;
            }
            document_metadata.set_relations(parent, relations);
        }
        let ghost spliced_links = document_metadata@;
        proof {
            assert forall|x: LayerNodeIdentifier| l0.contains_key(x) && x != self implies (
            #[trigger] spliced_links[x]) == spliced(l0, self, x) by {}
            assert(spliced_links.dom() =~= l0.dom());
        }
        let mut i: usize = 0;
        while i < below.len()
            invariant
                0 <= i <= below.len(),
                document_metadata.same_tags(old(document_metadata)),
                document_metadata.listing() == t0,
                forall|x: LayerNodeIdentifier|
                    #[trigger] document_metadata@.contains_key(x) <==> spliced_links.contains_key(x)
                        && !below@.take(i as int).contains(x),
                forall|x: LayerNodeIdentifier|
                    #[trigger] document_metadata@.contains_key(x) ==> document_metadata@[x]
                        == spliced_links[x],
            decreases below.len() - i,
        {
            let ghost before = document_metadata@;
            document_metadata.remove_relations(below[i]);
            proof {
                assert(below@.take(i + 1) =~= below@.take(i as int).push(below@[i as int]));
                assert forall|x: LayerNodeIdentifier| #[trigger]
                    document_metadata@.contains_key(x) <==> spliced_links.contains_key(x)
                        && !below@.take(i + 1).contains(x) by {
                    assert(before.contains_key(x) <==> spliced_links.contains_key(x)
                        && !below@.take(i as int).contains(x));
                    if below@.take(i as int).contains(x) {
                        let j = choose|j: int|
                            0 <= j < below@.take(i as int).len() && below@.take(i as int)[j] == x;
                        assert(below@.take(i + 1)[j] == x);
                    }
                    if x == below@[i as int] {
                        assert(below@.take(i + 1)[i as int] == x);
                    }
                }
            }
            i += 1;
        }
        document_metadata.remove_relations(self);
        let ghost mut at: int = 0;
        proof {
            assert(below@.take(below.len() as int) =~= below@);
            let target = delete_links(l0, removed, self);
            assert forall|x: LayerNodeIdentifier| #[trigger]
                document_metadata@.contains_key(x) <==> target.contains_key(x) by {}
            assert(document_metadata@ =~= target);
            if l0.contains_key(self) && self != root_id() {
                assert forall|x: LayerNodeIdentifier| removed.contains(x) <==> #[trigger] subtree_set(
                    l0,
                    t0,
                    self,
                ).contains(x) by {
                    if below@.contains(x) {
                        let j = choose|j: int| 0 <= j < below@.len() && below@[j] == x;
                        assert(x == t0.order[t0.i(self) + 1 + j]);
                    }
                    if l0.contains_key(x) && in_subtree(t0, self, x) && x != self {
                        assert(place_ok(l0, t0, x));
                        assert(below@[t0.i(x) - t0.i(self) - 1] == x);
                    }
                }
                assert(removed =~= subtree_set(l0, t0, self));
                lemma_delete(l0, t0, self);
                at = crate::children::lemma_delete_child(l0, t0, self);
            }
        }
        proof {
            if !l0.contains_key(self) {
                assert(document_metadata@ =~= l0);
            }
        }
        document_metadata.set_listing(
            Ghost(
                if l0.contains_key(self) {
                    delete_model(t0, self)
                } else {
                    t0
                },
            ),
        );
        proof {
            if l0.contains_key(self) && self != root_id() {
                let parent = l0[self].parent.unwrap();
                assert(old(document_metadata).spec_children(parent)[at] == self);
                assert(document_metadata.child_taken_at(old(document_metadata), parent, at));
            }
        }
    }

    /// Whether `other` is this layer or one of its ancestors.
    pub fn starts_with(&self, other: Self, document_metadata: &DocumentMetadata) -> (found: bool)
        requires
            document_metadata.wf(),
        ensures
            found == document_metadata.spec_ancestors(*self).contains(other),
    {
        let ghost all = document_metadata.spec_ancestors(*self);
        let mut walk = self.ancestors(document_metadata);
        let ghost mut seen: Seq<LayerNodeIdentifier> = Seq::empty();
        assert(seen + walk.remaining() =~= all);
        loop
            invariant
                walk.document() == document_metadata,
                document_metadata.wf(),
                all == document_metadata.spec_ancestors(*self),
                seen + walk.remaining() == all,
                !seen.contains(other),
            decreases walk.remaining().len(),
        {
            let ghost rest = walk.remaining();
            match walk.next() {
                Some(layer) => {
                    proof {
                        assert(seen + rest =~= seen.push(layer) + walk.remaining());
                    }
                    if layer == other {
                        proof {
                            assert(all[seen.len() as int] == other);
                        }
                        return true;
                    }
                    proof {
                        seen = seen.push(layer);
                    }
                },
                None => {
                    proof {
                        assert(seen + walk.remaining() =~= seen);
                    }
                    return false;
                },
            }
        }
    }

    /// The child of the root that this layer stands below, or is: the one of
    /// the layer and its ancestors whose parent is the root.
    pub fn child_of_root(&self, document_metadata: &DocumentMetadata) -> (layer: Self)
        requires
            document_metadata.wf(),
            document_metadata@.contains_key(*self),
            *self != root_id(),
        ensures
            layer != root_id(),
            document_metadata@.contains_key(layer),
            document_metadata@[layer].parent == Some(root_id()),
            document_metadata.spec_ancestors(*self).contains(layer),
            exists|k: int|
                0 <= k < document_metadata.spec_ancestors(*self).len()
                    && #[trigger] document_metadata.spec_ancestors(*self)[k] == layer && forall|
                    j: int,
                |
                    k < j < document_metadata.spec_ancestors(*self).len()
                        ==> #[trigger] document_metadata.spec_ancestors(*self)[j] == root_id(),
    {
        let ghost l = document_metadata@;
        let ghost t = document_metadata.listing();
        let ghost all = document_metadata.spec_ancestors(*self);
        let mut walk = self.ancestors(document_metadata);
        let ghost mut seen: Seq<LayerNodeIdentifier> = Seq::empty();
        let ghost mut k: int = 0;
        let mut best = *self;
        assert(seen + walk.remaining() =~= all);
        let first = walk.next();
        proof {
            seen = seen.push(*self);
            assert(seen + walk.remaining() =~= all);
        }
        loop
            invariant
                walk.document() == document_metadata,
                walk.axis() == crate::walk::Axis::Ancestors,
                document_metadata.wf(),
                l == document_metadata@,
                t == document_metadata.listing(),
                all == document_metadata.spec_ancestors(*self),
                seen + walk.remaining() == all,
                best != root_id(),
                0 <= k < seen.len(),
                seen[k] == best,
                forall|j: int| k < j < seen.len() ==> #[trigger] seen[j] == root_id(),
                forall|j: int| 0 <= j < seen.len() ==> l.contains_key(#[trigger] seen[j]),
                forall|j: int|
                    0 <= j && j + 1 < seen.len() ==> (#[trigger] l[seen[j]]).parent == Some(
                        seen[j + 1],
                    ),
                walk.cursor() == l[seen.last()].parent,
            decreases walk.remaining().len(),
        {
            let ghost rest = walk.remaining();
            let ghost before = seen;
            proof {
                assert(parent_ok(l, t, seen.last()));
            }
            match walk.next() {
                Some(layer) => {
                    proof {
                        assert(seen + rest =~= seen.push(layer) + walk.remaining());
                    }
                    if layer.0 != crate::identifier::ROOT_NODE {
                        best = layer;
                        proof {
                            k = seen.len() as int;
                        }
                    }
                    proof {
                        seen = seen.push(layer);
                        assert forall|j: int| 0 <= j && j + 1 < seen.len() implies (
                        #[trigger] l[seen[j]]).parent == Some(seen[j + 1]) by {
                            if j + 1 < before.len() {
                                assert(seen[j] == before[j] && seen[j + 1] == before[j + 1]);
                                assert(l[before[j]].parent == Some(before[j + 1]));
                            } else {
                                assert(seen[j] == before.last());
                            }
                        }
                        assert forall|j: int| 0 <= j < seen.len() implies l.contains_key(
                            #[trigger] seen[j],
                        ) by {
                            if j < before.len() {
                                assert(seen[j] == before[j]);
                            }
                        }
                    }
                },
                None => {
                    proof {
                        assert(seen + walk.remaining() =~= seen);
                        assert(all[k] == best);
                        assert(seen.last() == root_id());
                        assert(l[seen[k]].parent == Some(seen[k + 1]));
                    }
                    return best;
                },
            }
        }
    }
}

} // verus!
