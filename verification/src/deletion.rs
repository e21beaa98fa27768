//! Taking a layer and everything below it out of the tree: what happens to
//! the links and to the pre-order listing, and the proof that the two still
//! agree afterwards.

use vstd::prelude::*;
use crate::identifier::{LayerNodeIdentifier, NodeRelations};
use crate::model::{
    Links, Preorder, root_id, rel, place_ok, parent_ok, nested_ok, children_ok, next_ok,
    previous_ok, root_ok, tree_inv, lemma_innermost, lemma_same_end, lemma_first_is_child,
    lemma_next_is_sibling,
};

verus! {

/// `x` is `d` or lies below it.
pub open spec fn in_subtree(t: Preorder, d: LayerNodeIdentifier, x: LayerNodeIdentifier) -> bool {
    t.i(d) <= t.i(x) <= t.e(d)
}

/// The listing after `d` and everything below it has been taken out.
pub open spec fn delete_model(t: Preorder, d: LayerNodeIdentifier) -> Preorder {
    let lo = t.i(d);
    let hi = t.e(d);
    let w = hi - lo + 1;
    Preorder {
        order: Seq::new(
            (t.order.len() - w) as nat,
            |j: int|
                if j < lo {
                    t.order[j]
                } else {
                    t.order[j + w]
                },
        ),
        index: Map::new(
            |x: LayerNodeIdentifier| true,
            |x: LayerNodeIdentifier|
                if t.index[x] > hi {
                    t.index[x] - w
                } else {
                    t.index[x]
                },
        ),
        size: Map::new(
            |x: LayerNodeIdentifier| true,
            |x: LayerNodeIdentifier|
                if t.i(x) < lo && hi <= t.e(x) {
                    (t.size[x] - w) as nat
                } else {
                    t.size[x]
                },
        ),
        depth: t.depth,
    }
}

/// The record of `x` after `d` has been spliced out from between its
/// siblings and from under its parent.
pub open spec fn spliced(l: Links, d: LayerNodeIdentifier, x: LayerNodeIdentifier) -> NodeRelations {
    let gone = rel(l, d);
    NodeRelations {
        parent: l[x].parent,
        previous_sibling: if gone.next_sibling == Some(x) {
            gone.previous_sibling
        } else {
            l[x].previous_sibling
        },
        next_sibling: if gone.previous_sibling == Some(x) {
            gone.next_sibling
        } else {
            l[x].next_sibling
        },
        first_child: if gone.parent == Some(x) && l[x].first_child == Some(d) {
            gone.next_sibling
        } else {
            l[x].first_child
        },
        last_child: if gone.parent == Some(x) && l[x].last_child == Some(d) {
            gone.previous_sibling
        } else {
            l[x].last_child
        },
    }
}

/// The links after `d` has been spliced out and the layers of `removed` have
/// been dropped.
pub open spec fn delete_links(
    l: Links,
    removed: Set<LayerNodeIdentifier>,
    d: LayerNodeIdentifier,
) -> Links {
    Map::new(
        |x: LayerNodeIdentifier| l.contains_key(x) && !removed.contains(x),
        |x: LayerNodeIdentifier| spliced(l, d, x),
    )
}

/// The layers at and below `d`.
pub open spec fn subtree_set(l: Links, t: Preorder, d: LayerNodeIdentifier) -> Set<
    LayerNodeIdentifier,
> {
    Set::new(|x: LayerNodeIdentifier| l.contains_key(x) && in_subtree(t, d, x))
}

pub open spec fn delete_pre(l: Links, t: Preorder, d: LayerNodeIdentifier) -> bool {
    &&& tree_inv(l, t)
    &&& l.contains_key(d)
    &&& d != root_id()
}

/// The interval of `x` lies inside that of `d`, holds it, or is apart from it.
pub open spec fn away(t: Preorder, d: LayerNodeIdentifier, x: LayerNodeIdentifier) -> bool {
    if t.i(x) < t.i(d) {
        t.e(x) < t.i(d) || t.e(x) >= t.e(d)
    } else if t.i(x) <= t.e(d) {
        t.e(x) <= t.e(d)
    } else {
        true
    }
}

pub open spec fn delete_facts(l: Links, t: Preorder, d: LayerNodeIdentifier) -> bool {
    &&& l[d].parent matches Some(p)
    &&& l.contains_key(p)
    &&& 0 <= t.i(p) < t.i(d) <= t.e(d) <= t.e(p) < t.order.len()
    &&& t.i(d) == t.i(p) + 1 <==> l[p].first_child == Some(d)
    &&& t.e(d) == t.e(p) <==> l[p].last_child == Some(d)
    &&& l[d].next_sibling matches Some(r) ==> {
        &&& l.contains_key(r)
        &&& r != root_id()
        &&& r == t.order[t.e(d) + 1]
        &&& t.i(r) == t.e(d) + 1
        &&& l[r].parent == Some(p)
        &&& l[r].previous_sibling == Some(d)
    }
    &&& l[d].previous_sibling matches Some(s) ==> {
        &&& l.contains_key(s)
        &&& s != root_id()
        &&& t.e(s) + 1 == t.i(d)
        &&& t.i(s) <= t.e(s)
        &&& l[s].parent == Some(p)
        &&& l[s].next_sibling == Some(d)
    }
    &&& l[d].next_sibling is None <==> t.e(d) == t.e(p)
    &&& l[d].previous_sibling is None <==> t.i(d) == t.i(p) + 1
    &&& forall|x: LayerNodeIdentifier| l.contains_key(x) ==> #[trigger] away(t, d, x)
}

pub proof fn lemma_delete_facts(l: Links, t: Preorder, d: LayerNodeIdentifier)
    requires
        delete_pre(l, t, d),
    ensures
        delete_facts(l, t, d),
{
    assert(place_ok(l, t, d));
    assert(parent_ok(l, t, d));
    assert(next_ok(l, t, d));
    assert(previous_ok(l, t, d));
    let p = l[d].parent.unwrap();
    assert(place_ok(l, t, p));
    assert(children_ok(l, t, p));
    lemma_first_is_child(l, t, p);
    let x = l[p].last_child.unwrap();
    if t.e(d) == t.e(p) {
        lemma_same_end(l, t, x, d);
    }
    if t.e(d) != t.e(p) {
        lemma_next_is_sibling(l, t, d);
    }
    if l[d].previous_sibling is Some {
        let s = l[d].previous_sibling.unwrap();
        assert(place_ok(l, t, s));
        assert(parent_ok(l, t, s));
        lemma_next_is_sibling(l, t, s);
    }
    assert forall|x: LayerNodeIdentifier| l.contains_key(x) implies #[trigger] away(t, d, x) by {
        assert(place_ok(l, t, x));
        assert(nested_ok(t, x, d));
        assert(nested_ok(t, d, x));
    }
}

pub proof fn lemma_delete_places(l: Links, t: Preorder, d: LayerNodeIdentifier)
    requires
        delete_pre(l, t, d),
    ensures
        ({
            let l2 = delete_links(l, subtree_set(l, t, d), d);
            let t2 = delete_model(t, d);
            &&& root_ok(l2, t2)
            &&& forall|x: LayerNodeIdentifier| l2.contains_key(x) ==> #[trigger] place_ok(l2, t2, x)
            &&& forall|j: int|
                0 <= j < t2.order.len() ==> l2.contains_key(#[trigger] t2.order[j]) && t2.i(
                    t2.order[j],
                ) == j
        }),
{
    lemma_delete_facts(l, t, d);
    let l2 = delete_links(l, subtree_set(l, t, d), d);
    let t2 = delete_model(t, d);
    assert(place_ok(l, t, root_id()));
    assert(away(t, d, root_id()));
    assert forall|x: LayerNodeIdentifier| l2.contains_key(x) implies #[trigger] place_ok(
        l2,
        t2,
        x,
    ) by {
        assert(place_ok(l, t, x));
        assert(away(t, d, x));
    }
    assert forall|j: int| 0 <= j < t2.order.len() implies l2.contains_key(#[trigger] t2.order[j])
        && t2.i(t2.order[j]) == j by {
        if j < t.i(d) {
            assert(l.contains_key(t.order[j]));
        } else {
            assert(l.contains_key(t.order[j + (t.e(d) - t.i(d) + 1)]));
        }
    }
}

pub proof fn lemma_delete_parents(l: Links, t: Preorder, d: LayerNodeIdentifier)
    requires
        delete_pre(l, t, d),
    ensures
        ({
            let l2 = delete_links(l, subtree_set(l, t, d), d);
            let t2 = delete_model(t, d);
            forall|x: LayerNodeIdentifier| l2.contains_key(x) ==> #[trigger] parent_ok(l2, t2, x)
        }),
{
    lemma_delete_facts(l, t, d);
    let l2 = delete_links(l, subtree_set(l, t, d), d);
    let t2 = delete_model(t, d);
    assert forall|x: LayerNodeIdentifier| l2.contains_key(x) implies #[trigger] parent_ok(
        l2,
        t2,
        x,
    ) by {
        if x != root_id() {
            assert(place_ok(l, t, x));
            assert(parent_ok(l, t, x));
            assert(away(t, d, x));
            let q = l[x].parent.unwrap();
            assert(place_ok(l, t, q));
            assert(away(t, d, q));
        }
    }
}

pub proof fn lemma_delete_nesting(l: Links, t: Preorder, d: LayerNodeIdentifier)
    requires
        delete_pre(l, t, d),
    ensures
        ({
            let l2 = delete_links(l, subtree_set(l, t, d), d);
            let t2 = delete_model(t, d);
            forall|a: LayerNodeIdentifier, b: LayerNodeIdentifier|
                l2.contains_key(a) && l2.contains_key(b) ==> #[trigger] nested_ok(t2, a, b)
        }),
{
    lemma_delete_facts(l, t, d);
    let l2 = delete_links(l, subtree_set(l, t, d), d);
    let t2 = delete_model(t, d);
    assert forall|a: LayerNodeIdentifier, b: LayerNodeIdentifier|
        l2.contains_key(a) && l2.contains_key(b) implies #[trigger] nested_ok(t2, a, b) by {
        assert(place_ok(l, t, a));
        assert(place_ok(l, t, b));
        assert(away(t, d, a));
        assert(away(t, d, b));
        assert(nested_ok(t, a, b));
    }
}

pub proof fn lemma_delete_children(l: Links, t: Preorder, d: LayerNodeIdentifier)
    requires
        delete_pre(l, t, d),
    ensures
        ({
            let l2 = delete_links(l, subtree_set(l, t, d), d);
            let t2 = delete_model(t, d);
            forall|x: LayerNodeIdentifier| l2.contains_key(x) ==> #[trigger] children_ok(l2, t2, x)
        }),
{
    lemma_delete_facts(l, t, d);
    let l2 = delete_links(l, subtree_set(l, t, d), d);
    let t2 = delete_model(t, d);
    let p = l[d].parent.unwrap();
    assert(place_ok(l, t, d));
    assert forall|q: LayerNodeIdentifier| l2.contains_key(q) implies #[trigger] children_ok(
        l2,
        t2,
        q,
    ) by {
        assert(place_ok(l, t, q));
        assert(children_ok(l, t, q));
        assert(away(t, d, q));
        if t.size[q] > 0 {
            lemma_first_is_child(l, t, q);
            let x = l[q].last_child.unwrap();
            assert(place_ok(l, t, x));
            assert(away(t, d, x));
            if x == d {
                if l[d].previous_sibling is Some {
                    let s = l[d].previous_sibling.unwrap();
                    assert(away(t, d, s));
                }
            } else if in_subtree(t, d, x) {
                if t.i(x) == t.i(d) {
                    assert(t.order[t.i(x)] == x);
                }
                lemma_innermost(l, t, d, x);
                assert(false);
            }
        }
    }
}

pub proof fn lemma_delete_next(l: Links, t: Preorder, d: LayerNodeIdentifier)
    requires
        delete_pre(l, t, d),
    ensures
        ({
            let l2 = delete_links(l, subtree_set(l, t, d), d);
            let t2 = delete_model(t, d);
            forall|x: LayerNodeIdentifier| l2.contains_key(x) ==> #[trigger] next_ok(l2, t2, x)
        }),
{
    lemma_delete_facts(l, t, d);
    let l2 = delete_links(l, subtree_set(l, t, d), d);
    let t2 = delete_model(t, d);
    let p = l[d].parent.unwrap();
    assert(place_ok(l, t, d));
    assert forall|c: LayerNodeIdentifier| l2.contains_key(c) implies #[trigger] next_ok(
        l2,
        t2,
        c,
    ) by {
        if c != root_id() {
            assert(place_ok(l, t, c));
            assert(parent_ok(l, t, c));
            assert(next_ok(l, t, c));
            assert(away(t, d, c));
            let q = l[c].parent.unwrap();
            assert(place_ok(l, t, q));
            assert(away(t, d, q));
            if l[d].previous_sibling == Some(c) {
            } else if t.e(c) != t.e(q) {
                if t.e(c) + 1 == t.i(d) {
                    lemma_next_is_sibling(l, t, c);
                    assert(false);
                }
            }
        }
    }
}

pub proof fn lemma_delete_previous(l: Links, t: Preorder, d: LayerNodeIdentifier)
    requires
        delete_pre(l, t, d),
    ensures
        ({
            let l2 = delete_links(l, subtree_set(l, t, d), d);
            let t2 = delete_model(t, d);
            forall|x: LayerNodeIdentifier| l2.contains_key(x) ==> #[trigger] previous_ok(l2, t2, x)
        }),
{
    lemma_delete_facts(l, t, d);
    let l2 = delete_links(l, subtree_set(l, t, d), d);
    let t2 = delete_model(t, d);
    let p = l[d].parent.unwrap();
    assert(place_ok(l, t, d));
    assert forall|c: LayerNodeIdentifier| l2.contains_key(c) implies #[trigger] previous_ok(
        l2,
        t2,
        c,
    ) by {
        if c != root_id() {
            assert(place_ok(l, t, c));
            assert(parent_ok(l, t, c));
            assert(previous_ok(l, t, c));
            assert(away(t, d, c));
            let q = l[c].parent.unwrap();
            assert(place_ok(l, t, q));
            assert(away(t, d, q));
            if l[d].next_sibling == Some(c) {
                if l[d].previous_sibling is Some {
                    let s = l[d].previous_sibling.unwrap();
                    assert(away(t, d, s));
                }
            } else if t.i(c) == t.i(q) + 1 {
            } else {
                let s0 = l[c].previous_sibling.unwrap();
                assert(place_ok(l, t, s0));
                assert(away(t, d, s0));
                if t.i(c) == t.e(d) + 1 && t.i(q) == t.i(d) - 1 {
                    lemma_first_is_child(l, t, q);
                    assert(t.order[t.i(d)] == d);
                    assert(false);
                }
                if in_subtree(t, d, s0) {
                    if s0 == d {
                        assert(t.order[t.i(c)] == c);
                        assert(false);
                    } else {
                        if t.i(s0) == t.i(d) {
                            assert(t.order[t.i(s0)] == s0);
                        }
                        lemma_innermost(l, t, d, s0);
                        assert(false);
                    }
                }
            }
        }
    }
}

/// Splicing a layer other than the root out of the tree and dropping it with
/// everything below it gives a tree again.
pub proof fn lemma_delete(l: Links, t: Preorder, d: LayerNodeIdentifier)
    requires
        delete_pre(l, t, d),
    ensures
        tree_inv(delete_links(l, subtree_set(l, t, d), d), delete_model(t, d)),
{
    lemma_delete_places(l, t, d);
    lemma_delete_parents(l, t, d);
    lemma_delete_nesting(l, t, d);
    lemma_delete_children(l, t, d);
    lemma_delete_next(l, t, d);
    lemma_delete_previous(l, t, d);
}

} // verus!
