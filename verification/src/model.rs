//! The mathematical model of the layer tree.
//!
//! The links of a well-formed tree are described by the pre-order listing of
//! its layers: every layer owns the interval of positions that starts at its
//! own position and covers all of its descendants. The intervals of two layers
//! are nested or apart, and each of the five links of a layer is a statement
//! about where intervals start and end.

use vstd::prelude::*;
use crate::identifier::{LayerNodeIdentifier, NodeRelations, ROOT_NODE};

verus! {

/// The links of every layer of a document.
pub type Links = Map<LayerNodeIdentifier, NodeRelations>;

/// Pre-order listing of a tree, with the place, the number of descendants and
/// the depth of every layer.
pub struct Preorder {
    pub order: Seq<LayerNodeIdentifier>,
    pub index: Map<LayerNodeIdentifier, int>,
    pub size: Map<LayerNodeIdentifier, nat>,
    pub depth: Map<LayerNodeIdentifier, nat>,
}

impl Preorder {
    /// Position of `x` in the listing.
    pub open spec fn i(self, x: LayerNodeIdentifier) -> int {
        self.index[x]
    }

    /// Position of the last descendant of `x`, or of `x` itself if it has none.
    pub open spec fn e(self, x: LayerNodeIdentifier) -> int {
        self.index[x] + self.size[x]
    }

    /// `b` lies strictly inside the interval of `a`.
    pub open spec fn encloses(self, a: LayerNodeIdentifier, b: LayerNodeIdentifier) -> bool {
        self.i(a) < self.i(b) && self.i(b) <= self.e(a)
    }

    /// `x` is `p` or its interval holds that of `p`.
    pub open spec fn covers(self, x: LayerNodeIdentifier, p: LayerNodeIdentifier) -> bool {
        self.i(x) <= self.i(p) && self.e(p) <= self.e(x)
    }

    /// The listing of a tree that holds the root alone.
    pub open spec fn root_only() -> Preorder {
        Preorder {
            order: seq![LayerNodeIdentifier(ROOT_NODE)],
            index: Map::new(|x: LayerNodeIdentifier| true, |x: LayerNodeIdentifier| 0int),
            size: Map::new(|x: LayerNodeIdentifier| true, |x: LayerNodeIdentifier| 0nat),
            depth: Map::new(|x: LayerNodeIdentifier| true, |x: LayerNodeIdentifier| 0nat),
        }
    }
}

pub open spec fn root_id() -> LayerNodeIdentifier {
    LayerNodeIdentifier(ROOT_NODE)
}

/// The record of `x`, or an unlinked record where the map has none.
pub open spec fn rel(l: Links, x: LayerNodeIdentifier) -> NodeRelations {
    if l.contains_key(x) {
        l[x]
    } else {
        NodeRelations::unlinked()
    }
}

pub open spec fn place_ok(l: Links, t: Preorder, x: LayerNodeIdentifier) -> bool {
    &&& 0 <= t.i(x) < t.order.len()
    &&& t.order[t.i(x)] == x
    &&& t.e(x) < t.order.len()
}

pub open spec fn parent_ok(l: Links, t: Preorder, c: LayerNodeIdentifier) -> bool {
    c != root_id() ==> {
        &&& l[c].parent matches Some(p)
        &&& l.contains_key(p)
        &&& t.i(p) < t.i(c)
        &&& t.e(c) <= t.e(p)
        &&& t.depth[c] == t.depth[p] + 1
    }
}

pub open spec fn nested_ok(t: Preorder, a: LayerNodeIdentifier, b: LayerNodeIdentifier) -> bool {
    t.encloses(a, b) ==> t.e(b) <= t.e(a) && t.depth[a] < t.depth[b]
}

pub open spec fn children_ok(l: Links, t: Preorder, p: LayerNodeIdentifier) -> bool {
    if t.size[p] == 0 {
        l[p].first_child is None && l[p].last_child is None
    } else {
        &&& l[p].first_child == Some(t.order[t.i(p) + 1])
        &&& l[p].last_child matches Some(x)
        &&& l.contains_key(x)
        &&& l[x].parent == Some(p)
        &&& t.e(x) == t.e(p)
    }
}

pub open spec fn next_ok(l: Links, t: Preorder, c: LayerNodeIdentifier) -> bool {
    c != root_id() ==> {
        if t.e(c) == t.e(l[c].parent.unwrap()) {
            l[c].next_sibling is None
        } else {
            l[c].next_sibling == Some(t.order[t.e(c) + 1])
        }
    }
}

pub open spec fn previous_ok(l: Links, t: Preorder, c: LayerNodeIdentifier) -> bool {
    c != root_id() ==> {
        if t.i(c) == t.i(l[c].parent.unwrap()) + 1 {
            l[c].previous_sibling is None
        } else {
            &&& l[c].previous_sibling matches Some(s)
            &&& l.contains_key(s)
            &&& s != root_id()
            &&& l[s].parent == l[c].parent
            &&& t.e(s) + 1 == t.i(c)
        }
    }
}

pub open spec fn root_ok(l: Links, t: Preorder) -> bool {
    &&& l.contains_key(root_id())
    &&& t.i(root_id()) == 0
    &&& t.size[root_id()] == t.order.len() - 1
    &&& l[root_id()].parent is None
    &&& l[root_id()].previous_sibling is None
    &&& l[root_id()].next_sibling is None
}

/// The links `l` are those of the tree that `t` lists.
pub open spec fn tree_inv(l: Links, t: Preorder) -> bool {
    &&& root_ok(l, t)
    &&& forall|x: LayerNodeIdentifier| l.contains_key(x) ==> #[trigger] place_ok(l, t, x)
    &&& forall|j: int|
        0 <= j < t.order.len() ==> l.contains_key(#[trigger] t.order[j]) && t.i(t.order[j]) == j
    &&& forall|x: LayerNodeIdentifier| l.contains_key(x) ==> #[trigger] parent_ok(l, t, x)
    &&& forall|a: LayerNodeIdentifier, b: LayerNodeIdentifier|
        l.contains_key(a) && l.contains_key(b) ==> #[trigger] nested_ok(t, a, b)
    &&& forall|x: LayerNodeIdentifier| l.contains_key(x) ==> #[trigger] children_ok(l, t, x)
    &&& forall|x: LayerNodeIdentifier| l.contains_key(x) ==> #[trigger] next_ok(l, t, x)
    &&& forall|x: LayerNodeIdentifier| l.contains_key(x) ==> #[trigger] previous_ok(l, t, x)
}

/// Where one interval holds a layer, it is that of the layer's parent or
/// holds the parent too.
pub proof fn lemma_innermost(l: Links, t: Preorder, a: LayerNodeIdentifier, c: LayerNodeIdentifier)
    requires
        tree_inv(l, t),
        l.contains_key(a),
        l.contains_key(c),
        t.encloses(a, c),
    ensures
        c != root_id(),
        l[c].parent matches Some(q) && (q == a || t.encloses(a, q)),
{
    assert(place_ok(l, t, a) && place_ok(l, t, c));
    assert(parent_ok(l, t, c));
    let q = l[c].parent.unwrap();
    assert(place_ok(l, t, q));
    assert(nested_ok(t, q, a));
    assert(nested_ok(t, a, c));
    assert(nested_ok(t, q, c));
    if t.i(q) == t.i(a) {
        assert(t.order[t.i(q)] == q);
    }
}

/// Two children of one parent whose intervals end at the same place are one.
pub proof fn lemma_same_end(l: Links, t: Preorder, a: LayerNodeIdentifier, b: LayerNodeIdentifier)
    requires
        tree_inv(l, t),
        l.contains_key(a),
        l.contains_key(b),
        a != root_id(),
        b != root_id(),
        l[a].parent == l[b].parent,
        t.e(a) == t.e(b),
    ensures
        a == b,
{
    assert(place_ok(l, t, a) && place_ok(l, t, b));
    assert(parent_ok(l, t, a) && parent_ok(l, t, b));
    assert(nested_ok(t, a, b));
    assert(nested_ok(t, b, a));
    if t.i(a) == t.i(b) {
        assert(t.order[t.i(a)] == a);
    }
}

/// The layer listed right after a layer with descendants is its child.
pub proof fn lemma_first_is_child(l: Links, t: Preorder, p: LayerNodeIdentifier)
    requires
        tree_inv(l, t),
        l.contains_key(p),
        t.size[p] > 0,
    ensures
        l.contains_key(t.order[t.i(p) + 1]),
        t.order[t.i(p) + 1] != root_id(),
        l[t.order[t.i(p) + 1]].parent == Some(p),
        t.i(t.order[t.i(p) + 1]) == t.i(p) + 1,
{
    assert(place_ok(l, t, p));
    let x = t.order[t.i(p) + 1];
    assert(l.contains_key(x) && t.i(x) == t.i(p) + 1);
    lemma_innermost(l, t, p, x);
    assert(parent_ok(l, t, x));
}

/// The layer listed right after the interval of a layer that is not the last
/// of its parent's children is the next of them.
pub proof fn lemma_next_is_sibling(l: Links, t: Preorder, c: LayerNodeIdentifier)
    requires
        tree_inv(l, t),
        l.contains_key(c),
        c != root_id(),
        t.e(c) != t.e(l[c].parent.unwrap()),
    ensures
        l.contains_key(t.order[t.e(c) + 1]),
        t.order[t.e(c) + 1] != root_id(),
        l[t.order[t.e(c) + 1]].parent == l[c].parent,
        t.i(t.order[t.e(c) + 1]) == t.e(c) + 1,
        l[c].next_sibling == Some(t.order[t.e(c) + 1]),
        l[t.order[t.e(c) + 1]].previous_sibling == Some(c),
{
    assert(place_ok(l, t, c));
    assert(parent_ok(l, t, c));
    assert(next_ok(l, t, c));
    let p = l[c].parent.unwrap();
    assert(place_ok(l, t, p));
    let s = t.order[t.e(c) + 1];
    assert(l.contains_key(s) && t.i(s) == t.e(c) + 1);
    assert(place_ok(l, t, s));
    lemma_innermost(l, t, p, s);
    let q = l[s].parent.unwrap();
    assert(parent_ok(l, t, s));
    if q != p {
        assert(place_ok(l, t, q));
        assert(nested_ok(t, c, q));
        assert(nested_ok(t, q, c));
        if t.i(q) == t.i(c) {
            assert(t.order[t.i(q)] == q);
        }
        lemma_innermost(l, t, q, c);
        assert(false);
    }
    assert(previous_ok(l, t, s));
    let r = l[s].previous_sibling.unwrap();
    lemma_same_end(l, t, r, c);
}

} // verus!
