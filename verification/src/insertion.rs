//! Putting one new layer into the tree: what happens to the links and to the
//! pre-order listing, and the proof that the two still agree afterwards.

use vstd::prelude::*;
use crate::identifier::{LayerNodeIdentifier, NodeRelations};
use crate::model::{
    Links, Preorder, root_id, place_ok, parent_ok, nested_ok, children_ok, next_ok, previous_ok,
    root_ok, tree_inv, lemma_innermost, lemma_same_end, lemma_first_is_child,
    lemma_next_is_sibling,
};

verus! {

/// Where position `j` of the old listing lies once a layer has been put at `k`.
pub open spec fn shift(k: int, j: int) -> int {
    if j < k {
        j
    } else {
        j + 1
    }
}

/// The listing after `new` has been put at position `k`, as a child of `p`.
pub open spec fn insert_model(
    t: Preorder,
    p: LayerNodeIdentifier,
    k: int,
    new: LayerNodeIdentifier,
) -> Preorder {
    Preorder {
        order: Seq::new(
            (t.order.len() + 1) as nat,
            |j: int|
                if j < k {
                    t.order[j]
                } else if j == k {
                    new
                } else {
                    t.order[j - 1]
                },
        ),
        index: Map::new(
            |x: LayerNodeIdentifier| true,
            |x: LayerNodeIdentifier|
                if x == new {
                    k
                } else {
                    shift(k, t.index[x])
                },
        ),
        size: Map::new(
            |x: LayerNodeIdentifier| true,
            |x: LayerNodeIdentifier|
                if x == new {
                    0nat
                } else if t.covers(x, p) {
                    t.size[x] + 1
                } else {
                    t.size[x]
                },
        ),
        depth: Map::new(
            |x: LayerNodeIdentifier| true,
            |x: LayerNodeIdentifier|
                if x == new {
                    t.depth[p] + 1
                } else {
                    t.depth[x]
                },
        ),
    }
}

/// The record of `x` after `new` has been linked in between the siblings
/// `left` and `right` under `p`.
pub open spec fn relinked(
    l: Links,
    p: LayerNodeIdentifier,
    left: Option<LayerNodeIdentifier>,
    right: Option<LayerNodeIdentifier>,
    new: LayerNodeIdentifier,
    x: LayerNodeIdentifier,
) -> NodeRelations {
    if x == new {
        NodeRelations {
            parent: Some(p),
            previous_sibling: left,
            next_sibling: right,
            first_child: None,
            last_child: None,
        }
    } else {
        NodeRelations {
            parent: l[x].parent,
            previous_sibling: if right == Some(x) {
                Some(new)
            } else {
                l[x].previous_sibling
            },
            next_sibling: if left == Some(x) {
                Some(new)
            } else {
                l[x].next_sibling
            },
            first_child: if x == p && left is None {
                Some(new)
            } else {
                l[x].first_child
            },
            last_child: if x == p && right is None {
                Some(new)
            } else {
                l[x].last_child
            },
        }
    }
}

/// The links after `new` has been linked in between `left` and `right` under `p`.
pub open spec fn insert_links(
    l: Links,
    p: LayerNodeIdentifier,
    left: Option<LayerNodeIdentifier>,
    right: Option<LayerNodeIdentifier>,
    new: LayerNodeIdentifier,
) -> Links {
    Map::new(
        |x: LayerNodeIdentifier| x == new || l.contains_key(x),
        |x: LayerNodeIdentifier| relinked(l, p, left, right, new, x),
    )
}

/// `left` and `right` are neighbours among the children of `p` (or the ends of
/// the child list), and `k` is the position in between.
pub open spec fn gap(
    l: Links,
    t: Preorder,
    p: LayerNodeIdentifier,
    left: Option<LayerNodeIdentifier>,
    right: Option<LayerNodeIdentifier>,
    k: int,
) -> bool {
    match left {
        Some(s) => {
            &&& l.contains_key(s)
            &&& s != root_id()
            &&& l[s].parent == Some(p)
            &&& k == t.e(s) + 1
            &&& right == l[s].next_sibling
        },
        None => k == t.i(p) + 1 && right == l[p].first_child,
    }
}

pub open spec fn insert_pre(
    l: Links,
    t: Preorder,
    p: LayerNodeIdentifier,
    left: Option<LayerNodeIdentifier>,
    right: Option<LayerNodeIdentifier>,
    k: int,
    new: LayerNodeIdentifier,
) -> bool {
    &&& tree_inv(l, t)
    &&& l.contains_key(p)
    &&& !l.contains_key(new)
    &&& gap(l, t, p, left, right, k)
}

/// What the gap says about positions.
pub open spec fn gap_facts(
    l: Links,
    t: Preorder,
    p: LayerNodeIdentifier,
    left: Option<LayerNodeIdentifier>,
    right: Option<LayerNodeIdentifier>,
    k: int,
) -> bool {
    &&& t.i(p) < k <= t.e(p) + 1
    &&& k <= t.order.len()
    &&& right is None <==> k == t.e(p) + 1
    &&& right matches Some(r) ==> {
        &&& l.contains_key(r)
        &&& r != root_id()
        &&& r == t.order[k]
        &&& l[r].parent == Some(p)
        &&& t.i(r) == k
    }
    &&& left matches Some(s) ==> t.i(p) < t.i(s) && t.i(s) < k && !t.covers(s, p)
    &&& forall|x: LayerNodeIdentifier| l.contains_key(x) ==> #[trigger] apart(t, p, k, x)
}

/// The interval of `x` holds that of `p` and reaches position `k`, or does not
/// reach across `k`.
pub open spec fn apart(t: Preorder, p: LayerNodeIdentifier, k: int, x: LayerNodeIdentifier) -> bool {
    if t.covers(x, p) {
        t.i(x) < k && t.e(x) >= k - 1
    } else {
        t.i(x) < k ==> t.e(x) < k
    }
}

pub proof fn lemma_gap_facts(
    l: Links,
    t: Preorder,
    p: LayerNodeIdentifier,
    left: Option<LayerNodeIdentifier>,
    right: Option<LayerNodeIdentifier>,
    k: int,
)
    requires
        tree_inv(l, t),
        l.contains_key(p),
        gap(l, t, p, left, right, k),
    ensures
        gap_facts(l, t, p, left, right, k),
{
    assert(place_ok(l, t, p));
    assert(children_ok(l, t, p));
    match left {
        Some(s) => {
            assert(place_ok(l, t, s));
            assert(parent_ok(l, t, s));
            assert(next_ok(l, t, s));
            if t.e(s) != t.e(p) {
                lemma_next_is_sibling(l, t, s);
            }
        },
        None => {
            if t.size[p] > 0 {
                lemma_first_is_child(l, t, p);
            }
        },
    }
    assert forall|x: LayerNodeIdentifier| l.contains_key(x) implies #[trigger] apart(t, p, k, x) by {
        assert(place_ok(l, t, x));
        assert(nested_ok(t, x, p));
        assert(nested_ok(t, p, x));
        if t.i(x) == t.i(p) {
            assert(t.order[t.i(x)] == x);
        }
        if t.i(x) > t.i(p) && t.e(x) >= k {
            match left {
                Some(s) => {
                    assert(nested_ok(t, x, s));
                    assert(nested_ok(t, s, x));
                    if t.i(x) == t.i(s) {
                        assert(t.order[t.i(x)] == x);
                    }
                    if t.i(x) < t.i(s) {
                        lemma_innermost(l, t, x, s);
                    }
                },
                None => {},
            }
        }
    }
}

pub proof fn lemma_insert_places(
    l: Links,
    t: Preorder,
    p: LayerNodeIdentifier,
    left: Option<LayerNodeIdentifier>,
    right: Option<LayerNodeIdentifier>,
    k: int,
    new: LayerNodeIdentifier,
)
    requires
        insert_pre(l, t, p, left, right, k, new),
    ensures
        ({
            let l2 = insert_links(l, p, left, right, new);
            let t2 = insert_model(t, p, k, new);
            &&& root_ok(l2, t2)
            &&& forall|x: LayerNodeIdentifier| l2.contains_key(x) ==> #[trigger] place_ok(l2, t2, x)
            &&& forall|j: int|
                0 <= j < t2.order.len() ==> l2.contains_key(#[trigger] t2.order[j]) && t2.i(
                    t2.order[j],
                ) == j
        }),
{
    lemma_gap_facts(l, t, p, left, right, k);
    let l2 = insert_links(l, p, left, right, new);
    let t2 = insert_model(t, p, k, new);
    assert(place_ok(l, t, p));
    assert(place_ok(l, t, root_id()));
    assert(t.covers(root_id(), p));
    assert forall|x: LayerNodeIdentifier| l2.contains_key(x) implies #[trigger] place_ok(l2, t2, x) by {
        if x != new {
            assert(place_ok(l, t, x));
            assert(apart(t, p, k, x));
        }
    }
    assert forall|j: int| 0 <= j < t2.order.len() implies l2.contains_key(#[trigger] t2.order[j])
        && t2.i(t2.order[j]) == j by {
        if j < k {
            assert(l.contains_key(t.order[j]));
        } else if j > k {
            assert(l.contains_key(t.order[j - 1]));
        }
    }
}

pub proof fn lemma_insert_parents(
    l: Links,
    t: Preorder,
    p: LayerNodeIdentifier,
    left: Option<LayerNodeIdentifier>,
    right: Option<LayerNodeIdentifier>,
    k: int,
    new: LayerNodeIdentifier,
)
    requires
        insert_pre(l, t, p, left, right, k, new),
    ensures
        ({
            let l2 = insert_links(l, p, left, right, new);
            let t2 = insert_model(t, p, k, new);
            forall|x: LayerNodeIdentifier| l2.contains_key(x) ==> #[trigger] parent_ok(l2, t2, x)
        }),
{
    lemma_gap_facts(l, t, p, left, right, k);
    let l2 = insert_links(l, p, left, right, new);
    let t2 = insert_model(t, p, k, new);
    assert(place_ok(l, t, p));
    assert forall|x: LayerNodeIdentifier| l2.contains_key(x) implies #[trigger] parent_ok(l2, t2, x) by {
        if x != new && x != root_id() {
            assert(place_ok(l, t, x));
            assert(parent_ok(l, t, x));
            let q = l[x].parent.unwrap();
            assert(place_ok(l, t, q));
            assert(apart(t, p, k, x));
            assert(apart(t, p, k, q));
        }
    }
}

pub proof fn lemma_insert_nesting(
    l: Links,
    t: Preorder,
    p: LayerNodeIdentifier,
    left: Option<LayerNodeIdentifier>,
    right: Option<LayerNodeIdentifier>,
    k: int,
    new: LayerNodeIdentifier,
)
    requires
        insert_pre(l, t, p, left, right, k, new),
    ensures
        ({
            let l2 = insert_links(l, p, left, right, new);
            let t2 = insert_model(t, p, k, new);
            forall|a: LayerNodeIdentifier, b: LayerNodeIdentifier|
                l2.contains_key(a) && l2.contains_key(b) ==> #[trigger] nested_ok(t2, a, b)
        }),
{
    lemma_gap_facts(l, t, p, left, right, k);
    let l2 = insert_links(l, p, left, right, new);
    let t2 = insert_model(t, p, k, new);
    assert(place_ok(l, t, p));
    assert forall|a: LayerNodeIdentifier, b: LayerNodeIdentifier|
        l2.contains_key(a) && l2.contains_key(b) implies #[trigger] nested_ok(t2, a, b) by {
        if a != new {
            assert(place_ok(l, t, a));
            assert(apart(t, p, k, a));
            if b == new {
                if t.covers(a, p) && a != p {
                    assert(nested_ok(t, a, p));
                    if t.i(a) == t.i(p) {
                        assert(t.order[t.i(a)] == a);
                    }
                }
            } else {
                assert(place_ok(l, t, b));
                assert(nested_ok(t, a, b));
                assert(apart(t, p, k, b));
            }
        }
    }
}

pub proof fn lemma_insert_children(
    l: Links,
    t: Preorder,
    p: LayerNodeIdentifier,
    left: Option<LayerNodeIdentifier>,
    right: Option<LayerNodeIdentifier>,
    k: int,
    new: LayerNodeIdentifier,
)
    requires
        insert_pre(l, t, p, left, right, k, new),
    ensures
        ({
            let l2 = insert_links(l, p, left, right, new);
            let t2 = insert_model(t, p, k, new);
            forall|x: LayerNodeIdentifier| l2.contains_key(x) ==> #[trigger] children_ok(l2, t2, x)
        }),
{
    lemma_gap_facts(l, t, p, left, right, k);
    let l2 = insert_links(l, p, left, right, new);
    let t2 = insert_model(t, p, k, new);
    assert(place_ok(l, t, p));
    assert(children_ok(l, t, p));
    assert forall|q: LayerNodeIdentifier| l2.contains_key(q) implies #[trigger] children_ok(l2, t2, q) by {
        if q != new {
            assert(place_ok(l, t, q));
            assert(children_ok(l, t, q));
            assert(apart(t, p, k, q));
            if t.covers(q, p) && q != p {
                if t.i(q) == t.i(p) {
                    assert(t.order[t.i(q)] == q);
                }
            }
            if t.size[q] > 0 {
                let x = l[q].last_child.unwrap();
                assert(place_ok(l, t, x));
                assert(apart(t, p, k, x));
                if q == p {
                    if right is None {
                        assert(l2[new].parent == Some(p));
                    }
                } else if t.covers(q, p) {
                    if !t.covers(x, p) && t.e(q) < k {
                        assert(t.encloses(p, x));
                        lemma_innermost(l, t, p, x);
                        assert(false);
                    }
                } else {
                    if t.covers(x, p) {
                        assert(parent_ok(l, t, x));
                    }
                }
            }
        }
    }
}

pub proof fn lemma_insert_next(
    l: Links,
    t: Preorder,
    p: LayerNodeIdentifier,
    left: Option<LayerNodeIdentifier>,
    right: Option<LayerNodeIdentifier>,
    k: int,
    new: LayerNodeIdentifier,
)
    requires
        insert_pre(l, t, p, left, right, k, new),
    ensures
        ({
            let l2 = insert_links(l, p, left, right, new);
            let t2 = insert_model(t, p, k, new);
            forall|x: LayerNodeIdentifier| l2.contains_key(x) ==> #[trigger] next_ok(l2, t2, x)
        }),
{
    lemma_gap_facts(l, t, p, left, right, k);
    let l2 = insert_links(l, p, left, right, new);
    let t2 = insert_model(t, p, k, new);
    assert(place_ok(l, t, p));
    assert forall|c: LayerNodeIdentifier| l2.contains_key(c) implies #[trigger] next_ok(l2, t2, c) by {
        if c != new && c != root_id() {
            assert(place_ok(l, t, c));
            assert(parent_ok(l, t, c));
            assert(next_ok(l, t, c));
            let q = l[c].parent.unwrap();
            assert(place_ok(l, t, q));
            assert(apart(t, p, k, c));
            assert(apart(t, p, k, q));
            if left == Some(c) {
            } else if t.e(c) == t.e(q) {
                if !t.covers(c, p) && t.covers(q, p) {
                    if q == p {
                        if k == t.e(p) + 1 {
                            lemma_same_end(l, t, left.unwrap(), c);
                        }
                    } else if t.e(q) < k {
                        if t.i(q) == t.i(p) {
                            assert(t.order[t.i(q)] == q);
                        }
                        assert(t.encloses(p, c));
                        lemma_innermost(l, t, p, c);
                        assert(false);
                    }
                }
            } else {
                if !t.covers(c, p) && t.e(c) + 1 == k {
                    match left {
                        Some(s) => {
                            assert(place_ok(l, t, s));
                            assert(nested_ok(t, s, c));
                            assert(nested_ok(t, c, s));
                            if t.i(s) == t.i(c) {
                                assert(t.order[t.i(s)] == s);
                            }
                            if t.i(c) < t.i(s) {
                                lemma_innermost(l, t, c, s);
                                assert(nested_ok(t, c, p));
                            } else {
                                lemma_innermost(l, t, s, c);
                                assert(nested_ok(t, s, q));
                            }
                            assert(false);
                        },
                        None => {
                            assert(nested_ok(t, c, p));
                            if t.i(c) == t.i(p) {
                                assert(t.order[t.i(c)] == c);
                            }
                            assert(false);
                        },
                    }
                }
            }
        }
    }
}

pub proof fn lemma_insert_previous(
    l: Links,
    t: Preorder,
    p: LayerNodeIdentifier,
    left: Option<LayerNodeIdentifier>,
    right: Option<LayerNodeIdentifier>,
    k: int,
    new: LayerNodeIdentifier,
)
    requires
        insert_pre(l, t, p, left, right, k, new),
    ensures
        ({
            let l2 = insert_links(l, p, left, right, new);
            let t2 = insert_model(t, p, k, new);
            forall|x: LayerNodeIdentifier| l2.contains_key(x) ==> #[trigger] previous_ok(l2, t2, x)
        }),
{
    lemma_gap_facts(l, t, p, left, right, k);
    let l2 = insert_links(l, p, left, right, new);
    let t2 = insert_model(t, p, k, new);
    assert(place_ok(l, t, p));
    assert forall|c: LayerNodeIdentifier| l2.contains_key(c) implies #[trigger] previous_ok(l2, t2, c) by {
        if c != new && c != root_id() {
            assert(place_ok(l, t, c));
            assert(parent_ok(l, t, c));
            assert(previous_ok(l, t, c));
            let q = l[c].parent.unwrap();
            assert(place_ok(l, t, q));
            assert(apart(t, p, k, q));
            if right == Some(c) {
                assert(l2[new].parent == Some(p));
            } else if t.i(c) == t.i(q) + 1 {
                if t.i(q) == k - 1 {
                    if t.i(q) == t.i(p) {
                        assert(t.order[t.i(q)] == q);
                    }
                    assert(children_ok(l, t, p));
                    assert(false);
                }
            } else {
                let s0 = l[c].previous_sibling.unwrap();
                assert(place_ok(l, t, s0));
                assert(apart(t, p, k, s0));
                if !t.covers(s0, p) && t.i(s0) < k {
                    if t.e(s0) == k - 1 {
                        if k <= t.e(p) {
                            assert(false);
                        } else {
                            assert(t.encloses(p, s0));
                            lemma_innermost(l, t, p, s0);
                            assert(false);
                        }
                    }
                }
            }
        }
    }
}

/// Linking a new layer into a gap between two neighbouring children (or at
/// an end of the child list) of a layer of the tree gives a tree again.
pub proof fn lemma_insert(
    l: Links,
    t: Preorder,
    p: LayerNodeIdentifier,
    left: Option<LayerNodeIdentifier>,
    right: Option<LayerNodeIdentifier>,
    k: int,
    new: LayerNodeIdentifier,
)
    requires
        insert_pre(l, t, p, left, right, k, new),
    ensures
        tree_inv(insert_links(l, p, left, right, new), insert_model(t, p, k, new)),
{
    lemma_insert_places(l, t, p, left, right, k, new);
    lemma_insert_parents(l, t, p, left, right, k, new);
    lemma_insert_nesting(l, t, p, left, right, k, new);
    lemma_insert_children(l, t, p, left, right, k, new);
    lemma_insert_next(l, t, p, left, right, k, new);
    lemma_insert_previous(l, t, p, left, right, k, new);
}


} // verus!
