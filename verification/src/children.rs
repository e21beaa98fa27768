//! What linking a new layer into a tree does to the child lists.

use vstd::prelude::*;
use crate::identifier::LayerNodeIdentifier;
use crate::model::{
    Links, Preorder, root_id, tree_inv, place_ok, parent_ok, children_ok, next_ok, nested_ok,
    lemma_next_is_sibling, lemma_first_is_child,
};
use crate::insertion::{insert_links, insert_model, gap, lemma_insert, lemma_gap_facts};
use crate::walk::{Axis, chain, children_of, lemma_chain_unfold};
use crate::deletion::{
    delete_links, delete_model, subtree_set, in_subtree, delete_pre, lemma_delete,
    lemma_delete_facts, away,
};
use crate::model::lemma_innermost;

verus! {

/// The next-sibling links of the children of `q` that are listed from
/// position `from` on are the same in both trees.
pub open spec fn same_next_under(
    l: Links,
    t: Preorder,
    l2: Links,
    q: LayerNodeIdentifier,
    from: int,
) -> bool {
    forall|x: LayerNodeIdentifier|
        l.contains_key(x) && l[x].parent == Some(q) && t.i(x) >= from ==> l2.contains_key(x) && (
        #[trigger] l2[x]).next_sibling == l[x].next_sibling
}

/// Where the children of `q` from `c` on are linked in the same way in two
/// trees, the walk over them from `c` on lists the same layers in both.
pub proof fn lemma_chain_frame(
    l: Links,
    t: Preorder,
    l2: Links,
    t2: Preorder,
    q: LayerNodeIdentifier,
    c: LayerNodeIdentifier,
)
    requires
        tree_inv(l, t),
        tree_inv(l2, t2),
        l.contains_key(c),
        c != root_id(),
        l[c].parent == Some(q),
        same_next_under(l, t, l2, q, t.i(c)),
    ensures
        chain(l2, t2, Axis::NextSiblings, Some(c)) == chain(l, t, Axis::NextSiblings, Some(c)),
    decreases t.order.len() - t.i(c),
{
    lemma_chain_unfold(l, t, Axis::NextSiblings, c);
    lemma_chain_unfold(l2, t2, Axis::NextSiblings, c);
    assert(place_ok(l, t, c));
    assert(l2[c].next_sibling == l[c].next_sibling);
    if l[c].next_sibling is Some {
        let n = l[c].next_sibling.unwrap();
        assert(next_ok(l, t, c));
        assert(parent_ok(l, t, c));
        lemma_next_is_sibling(l, t, c);
        assert(place_ok(l, t, n));
        lemma_chain_frame(l, t, l2, t2, q, n);
    }
}

/// Where a new layer is linked in behind the child `left` of `p`, the walk
/// over the children of `p` from `c` on lists one more layer: the new one,
/// right behind `left`. The number returned is the place of the new layer in
/// that list.
pub proof fn lemma_chain_insert(
    l: Links,
    t: Preorder,
    p: LayerNodeIdentifier,
    left: LayerNodeIdentifier,
    right: Option<LayerNodeIdentifier>,
    new: LayerNodeIdentifier,
    c: LayerNodeIdentifier,
) -> (at: int)
    requires
        tree_inv(l, t),
        l.contains_key(p),
        !l.contains_key(new),
        gap(l, t, p, Some(left), right, t.e(left) + 1),
        l.contains_key(c),
        c != root_id(),
        l[c].parent == Some(p),
        t.i(c) <= t.i(left),
    ensures
        ({
            let l2 = insert_links(l, p, Some(left), right, new);
            let t2 = insert_model(t, p, t.e(left) + 1, new);
            let before = chain(l, t, Axis::NextSiblings, Some(c));
            &&& 1 <= at <= before.len()
            &&& before[at - 1] == left
            &&& match right {
                Some(r) => at < before.len() && before[at] == r,
                None => at == before.len(),
            }
            &&& chain(l2, t2, Axis::NextSiblings, Some(c)) == before.insert(at, new)
        }),
    decreases t.order.len() - t.i(c),
{
    let k = t.e(left) + 1;
    let l2 = insert_links(l, p, Some(left), right, new);
    let t2 = insert_model(t, p, k, new);
    lemma_insert(l, t, p, Some(left), right, k, new);
    lemma_gap_facts(l, t, p, Some(left), right, k);
    lemma_chain_unfold(l, t, Axis::NextSiblings, c);
    lemma_chain_unfold(l2, t2, Axis::NextSiblings, c);
    assert(place_ok(l, t, c));
    assert(place_ok(l, t, left));
    assert(place_ok(l, t, p));
    assert(next_ok(l, t, c));
    assert(parent_ok(l, t, c));
    let before = chain(l, t, Axis::NextSiblings, Some(c));
    assert(chain(l, t, Axis::NextSiblings, None) =~= Seq::<LayerNodeIdentifier>::empty());
    assert(chain(l2, t2, Axis::NextSiblings, None) =~= Seq::<LayerNodeIdentifier>::empty());
    if c == left {
        lemma_chain_unfold(l2, t2, Axis::NextSiblings, new);
        let rest = chain(l, t, Axis::NextSiblings, right);
        if right is Some {
            let r = right.unwrap();
            lemma_chain_unfold(l, t, Axis::NextSiblings, r);
            assert(same_next_under(l, t, l2, p, t.i(r))) by {
                assert forall|x: LayerNodeIdentifier|
                    l.contains_key(x) && l[x].parent == Some(p) && t.i(x) >= t.i(
                        r,
                    ) implies l2.contains_key(x) && (#[trigger] l2[x]).next_sibling
                    == l[x].next_sibling by {}
            }
            lemma_chain_frame(l, t, l2, t2, p, r);
        }
        assert(seq![c] + (seq![new] + rest) =~= (seq![c] + rest).insert(1, new));
        1
    } else {
        assert(nested_ok(t, c, left));
        assert(parent_ok(l, t, left));
        if t.i(c) == t.i(left) {
            assert(t.order[t.i(c)] == c);
        }
        lemma_next_is_sibling(l, t, c);
        let n = l[c].next_sibling.unwrap();
        assert(place_ok(l, t, n));
        let below = lemma_chain_insert(l, t, p, left, right, new, n);
        let tail = chain(l, t, Axis::NextSiblings, Some(n));
        assert(seq![c] + tail.insert(below, new) =~= (seq![c] + tail).insert(below + 1, new));
        below + 1
    }
}

/// The child lists of the second tree are those of the first one, with `new`
/// put into place `at` of the child list of `p`.
pub open spec fn child_put(
    l: Links,
    t: Preorder,
    l2: Links,
    t2: Preorder,
    p: LayerNodeIdentifier,
    new: LayerNodeIdentifier,
    at: int,
) -> bool {
    &&& 0 <= at <= children_of(l, t, p).len()
    &&& children_of(l2, t2, p) == children_of(l, t, p).insert(at, new)
    &&& children_of(l2, t2, new) == Seq::<LayerNodeIdentifier>::empty()
    &&& forall|q: LayerNodeIdentifier|
        l.contains_key(q) && q != p ==> #[trigger] children_of(l2, t2, q) == children_of(l, t, q)
}

/// Linking a new layer into a tree, in between two neighbouring children of
/// `p` or at an end of its child list, puts it into that place of the child
/// list of `p` and leaves every other child list as it was. The number
/// returned is the place of the new layer among the children of `p`.
pub proof fn lemma_insert_child(
    l: Links,
    t: Preorder,
    p: LayerNodeIdentifier,
    left: Option<LayerNodeIdentifier>,
    right: Option<LayerNodeIdentifier>,
    k: int,
    new: LayerNodeIdentifier,
) -> (at: int)
    requires
        tree_inv(l, t),
        l.contains_key(p),
        !l.contains_key(new),
        gap(l, t, p, left, right, k),
    ensures
        ({
            let l2 = insert_links(l, p, left, right, new);
            let t2 = insert_model(t, p, k, new);
            let before = children_of(l, t, p);
            &&& tree_inv(l2, t2)
            &&& 0 <= at <= before.len()
            &&& match left {
                Some(s) => at >= 1 && before[at - 1] == s,
                None => at == 0,
            }
            &&& match right {
                Some(r) => at < before.len() && before[at] == r,
                None => at == before.len(),
            }
            &&& children_of(l2, t2, p) == before.insert(at, new)
            &&& children_of(l2, t2, new) == Seq::<LayerNodeIdentifier>::empty()
            &&& forall|q: LayerNodeIdentifier|
                l.contains_key(q) && q != p ==> #[trigger] children_of(l2, t2, q) == children_of(
                    l,
                    t,
                    q,
                )
        }),
{
    let l2 = insert_links(l, p, left, right, new);
    let t2 = insert_model(t, p, k, new);
    assert(place_ok(l, t, p));
    assert(children_ok(l, t, p));
    lemma_insert(l, t, p, left, right, k, new);
    lemma_gap_facts(l, t, p, left, right, k);
    assert(chain(l2, t2, Axis::NextSiblings, None) =~= Seq::<LayerNodeIdentifier>::empty());
    assert(chain(l, t, Axis::NextSiblings, None) =~= Seq::<LayerNodeIdentifier>::empty());
    assert forall|q: LayerNodeIdentifier| l.contains_key(q) && q != p implies #[trigger] children_of(
        l2,
        t2,
        q,
    ) == children_of(l, t, q) by {
        assert(place_ok(l, t, q));
        assert(children_ok(l, t, q));
        if t.size[q] > 0 {
            lemma_first_is_child(l, t, q);
            let first = l[q].first_child.unwrap();
            assert(same_next_under(l, t, l2, q, t.i(first))) by {
                assert forall|x: LayerNodeIdentifier|
                    l.contains_key(x) && l[x].parent == Some(q) && t.i(x) >= t.i(
                        first,
                    ) implies l2.contains_key(x) && (#[trigger] l2[x]).next_sibling
                    == l[x].next_sibling by {
                    if left == Some(x) {
                        assert(l[x].parent == Some(p));
                    }
                }
            }
            lemma_chain_frame(l, t, l2, t2, q, first);
        }
    }
    match left {
        Some(s) => {
            lemma_first_is_child(l, t, p);
            let first = l[p].first_child.unwrap();
            assert(place_ok(l, t, s));
            assert(parent_ok(l, t, s));
            lemma_chain_insert(l, t, p, s, right, new, first)
        },
        None => {
            lemma_chain_unfold(l2, t2, Axis::NextSiblings, new);
            let rest = chain(l, t, Axis::NextSiblings, right);
            if right is Some {
                let r = right.unwrap();
                lemma_chain_unfold(l, t, Axis::NextSiblings, r);
                assert(same_next_under(l, t, l2, p, t.i(r))) by {
                    assert forall|x: LayerNodeIdentifier|
                        l.contains_key(x) && l[x].parent == Some(p) && t.i(x) >= t.i(
                            r,
                        ) implies l2.contains_key(x) && (#[trigger] l2[x]).next_sibling
                        == l[x].next_sibling by {}
                }
                lemma_chain_frame(l, t, l2, t2, p, r);
            }
            assert(seq![new] + rest =~= rest.insert(0, new));
            0
        },
    }
}

/// Appending a child to a layer of a tree puts it at the end of that layer's
/// child list and leaves every other child list as it was.
pub proof fn lemma_append_child(
    l: Links,
    t: Preorder,
    p: LayerNodeIdentifier,
    new: LayerNodeIdentifier,
)
    requires
        tree_inv(l, t),
        l.contains_key(p),
        !l.contains_key(new),
    ensures
        ({
            let l2 = insert_links(l, p, l[p].last_child, None, new);
            let t2 = insert_model(t, p, t.e(p) + 1, new);
            &&& tree_inv(l2, t2)
            &&& children_of(l2, t2, p) == children_of(l, t, p).push(new)
            &&& children_of(l2, t2, new) == Seq::<LayerNodeIdentifier>::empty()
            &&& forall|q: LayerNodeIdentifier|
                l.contains_key(q) && q != p ==> #[trigger] children_of(l2, t2, q) == children_of(
                    l,
                    t,
                    q,
                )
        }),
{
    let left = l[p].last_child;
    assert(place_ok(l, t, p));
    assert(children_ok(l, t, p));
    if left is Some {
        assert(next_ok(l, t, left.unwrap()));
    }
    let at = lemma_insert_child(l, t, p, left, None, t.e(p) + 1, new);
    assert(children_of(l, t, p).insert(at, new) =~= children_of(l, t, p).push(new));
}

/// The child lists of the second tree are those of the first one, with the
/// child at place `at` taken out of the child list of `p`.
pub open spec fn child_taken(
    l: Links,
    t: Preorder,
    l2: Links,
    t2: Preorder,
    p: LayerNodeIdentifier,
    at: int,
) -> bool {
    &&& 0 <= at < children_of(l, t, p).len()
    &&& children_of(l2, t2, p) == children_of(l, t, p).remove(at)
    &&& forall|q: LayerNodeIdentifier|
        l2.contains_key(q) && q != p ==> #[trigger] children_of(l2, t2, q) == children_of(l, t, q)
}

/// Where a child `d` of `p` is taken out of a tree with all below it, the
/// walk over the children of `p` from an earlier child `c` on lists one layer
/// less: `d`. The number returned is the place that `d` had in that list.
pub proof fn lemma_chain_remove(
    l: Links,
    t: Preorder,
    d: LayerNodeIdentifier,
    c: LayerNodeIdentifier,
) -> (at: int)
    requires
        delete_pre(l, t, d),
        l.contains_key(c),
        c != root_id(),
        l[c].parent == l[d].parent,
        t.i(c) < t.i(d),
    ensures
        ({
            let l2 = delete_links(l, subtree_set(l, t, d), d);
            let t2 = delete_model(t, d);
            let before = chain(l, t, Axis::NextSiblings, Some(c));
            &&& 1 <= at < before.len()
            &&& before[at] == d
            &&& chain(l2, t2, Axis::NextSiblings, Some(c)) == before.remove(at)
        }),
    decreases t.order.len() - t.i(c),
{
    let l2 = delete_links(l, subtree_set(l, t, d), d);
    let t2 = delete_model(t, d);
    let p = l[d].parent.unwrap();
    lemma_delete(l, t, d);
    lemma_delete_facts(l, t, d);
    assert(place_ok(l, t, c));
    assert(place_ok(l, t, d));
    assert(parent_ok(l, t, c));
    assert(next_ok(l, t, c));
    assert(away(t, d, c));
    assert(nested_ok(t, c, d));
    assert(parent_ok(l, t, d));
    lemma_chain_unfold(l, t, Axis::NextSiblings, c);
    lemma_chain_unfold(l2, t2, Axis::NextSiblings, c);
    lemma_chain_unfold(l, t, Axis::NextSiblings, d);
    lemma_next_is_sibling(l, t, c);
    let n = l[c].next_sibling.unwrap();
    assert(place_ok(l, t, n));
    assert(chain(l, t, Axis::NextSiblings, None) =~= Seq::<LayerNodeIdentifier>::empty());
    assert(chain(l2, t2, Axis::NextSiblings, None) =~= Seq::<LayerNodeIdentifier>::empty());
    if n == d {
        let rest = chain(l, t, Axis::NextSiblings, l[d].next_sibling);
        if l[d].next_sibling is Some {
            let r = l[d].next_sibling.unwrap();
            assert(place_ok(l, t, r));
            assert(same_next_under(l, t, l2, p, t.i(r))) by {
                assert forall|x: LayerNodeIdentifier|
                    l.contains_key(x) && l[x].parent == Some(p) && t.i(x) >= t.i(
                        r,
                    ) implies l2.contains_key(x) && (#[trigger] l2[x]).next_sibling
                    == l[x].next_sibling by {
                    assert(place_ok(l, t, x));
                }
            }
            lemma_chain_frame(l, t, l2, t2, p, r);
        }
        assert((seq![c] + (seq![d] + rest)).remove(1) =~= seq![c] + rest);
        1
    } else {
        assert(t.i(n) < t.i(d)) by {
            assert(nested_ok(t, n, d));
            assert(parent_ok(l, t, n));
            if t.i(n) == t.i(d) {
                assert(t.order[t.i(n)] == n);
            }
        }
        let below = lemma_chain_remove(l, t, d, n);
        let tail = chain(l, t, Axis::NextSiblings, Some(n));
        assert((seq![c] + tail).remove(below + 1) =~= seq![c] + tail.remove(below));
        below + 1
    }
}

/// Taking a layer other than the root out of a tree, with all below it,
/// takes it out of the child list of its parent and leaves the child list of
/// every other layer that stays as it was. The number returned is the place
/// that the layer had among the children of its parent.
pub proof fn lemma_delete_child(l: Links, t: Preorder, d: LayerNodeIdentifier) -> (at: int)
    requires
        delete_pre(l, t, d),
    ensures
        tree_inv(delete_links(l, subtree_set(l, t, d), d), delete_model(t, d)),
        children_of(l, t, l[d].parent.unwrap())[at] == d,
        child_taken(
            l,
            t,
            delete_links(l, subtree_set(l, t, d), d),
            delete_model(t, d),
            l[d].parent.unwrap(),
            at,
        ),
{
    let l2 = delete_links(l, subtree_set(l, t, d), d);
    let t2 = delete_model(t, d);
    let p = l[d].parent.unwrap();
    lemma_delete(l, t, d);
    lemma_delete_facts(l, t, d);
    assert(place_ok(l, t, d));
    assert(place_ok(l, t, p));
    assert(children_ok(l, t, p));
    assert(away(t, d, p));
    assert(chain(l, t, Axis::NextSiblings, None) =~= Seq::<LayerNodeIdentifier>::empty());
    assert(chain(l2, t2, Axis::NextSiblings, None) =~= Seq::<LayerNodeIdentifier>::empty());
    assert forall|q: LayerNodeIdentifier| l2.contains_key(q) && q != p implies #[trigger] children_of(
        l2,
        t2,
        q,
    ) == children_of(l, t, q) by {
        assert(place_ok(l, t, q));
        assert(children_ok(l, t, q));
        assert(away(t, d, q));
        if t.size[q] > 0 {
            lemma_first_is_child(l, t, q);
            let first = l[q].first_child.unwrap();
            assert(same_next_under(l, t, l2, q, t.i(first))) by {
                assert forall|x: LayerNodeIdentifier|
                    l.contains_key(x) && l[x].parent == Some(q) && t.i(x) >= t.i(
                        first,
                    ) implies l2.contains_key(x) && (#[trigger] l2[x]).next_sibling
                    == l[x].next_sibling by {
                    assert(place_ok(l, t, x));
                    assert(away(t, d, x));
                    if in_subtree(t, d, x) {
                        if t.i(x) == t.i(d) {
                            assert(t.order[t.i(x)] == x);
                        }
                        lemma_innermost(l, t, d, x);
                        assert(false);
                    }
                }
            }
            lemma_chain_frame(l, t, l2, t2, q, first);
        }
    }
    lemma_first_is_child(l, t, p);
    let first = l[p].first_child.unwrap();
    lemma_chain_unfold(l, t, Axis::NextSiblings, d);
    if first == d {
        let rest = chain(l, t, Axis::NextSiblings, l[d].next_sibling);
        if l[d].next_sibling is Some {
            let r = l[d].next_sibling.unwrap();
            assert(place_ok(l, t, r));
            assert(same_next_under(l, t, l2, p, t.i(r))) by {
                assert forall|x: LayerNodeIdentifier|
                    l.contains_key(x) && l[x].parent == Some(p) && t.i(x) >= t.i(
                        r,
                    ) implies l2.contains_key(x) && (#[trigger] l2[x]).next_sibling
                    == l[x].next_sibling by {
                    assert(place_ok(l, t, x));
                }
            }
            lemma_chain_frame(l, t, l2, t2, p, r);
        }
        assert((seq![d] + rest).remove(0) =~= rest);
        0
    } else {
        assert(place_ok(l, t, first));
        lemma_chain_remove(l, t, d, first)
    }
}

} // verus!
