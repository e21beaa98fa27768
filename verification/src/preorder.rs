//! Pre-order, told by the links alone: the step from a layer to the one that
//! follows it, the step back, and what walking with either of them lists.

use vstd::prelude::*;
use crate::identifier::LayerNodeIdentifier;
use crate::model::{
    Links, Preorder, rel, root_id, tree_inv, place_ok, parent_ok, children_ok, next_ok,
    previous_ok, lemma_next_is_sibling, lemma_first_is_child,
};
use crate::walk::{Axis, chain, descendants, lemma_chain_unfold};

verus! {

/// The next sibling of the nearest of `x` and its ancestors that has one.
pub open spec fn next_after(l: Links, t: Preorder, x: LayerNodeIdentifier) -> Option<
    LayerNodeIdentifier,
>
    decreases
            (if t.i(x) >= 0 {
                t.i(x) + 1
            } else {
                0
            }),
{
    match rel(l, x).next_sibling {
        Some(sibling) => Some(sibling),
        None => match rel(l, x).parent {
            Some(parent) => if 0 <= t.i(parent) < t.i(x) {
                next_after(l, t, parent)
            } else {
                None
            },
            None => None,
        },
    }
}

/// The layer that follows `x` in pre-order: its first child or, where it has
/// none, the next sibling of the nearest of `x` and its ancestors that has
/// one.
pub open spec fn preorder_next(l: Links, t: Preorder, x: LayerNodeIdentifier) -> Option<
    LayerNodeIdentifier,
> {
    match rel(l, x).first_child {
        Some(child) => Some(child),
        None => next_after(l, t, x),
    }
}

/// The layer before `x` in pre-order: the last child of the last child, and
/// so on, of its previous sibling or, where it has none, its parent.
pub open spec fn preorder_previous(l: Links, t: Preorder, x: LayerNodeIdentifier) -> Option<
    LayerNodeIdentifier,
> {
    match rel(l, x).previous_sibling {
        Some(sibling) => Some(chain(l, t, Axis::LastChildren, Some(sibling)).last()),
        None => rel(l, x).parent,
    }
}

/// What stepping forward from `front` lists, up to `back`.
pub open spec fn forward_walk(
    l: Links,
    t: Preorder,
    front: LayerNodeIdentifier,
    back: LayerNodeIdentifier,
) -> Seq<LayerNodeIdentifier>
    decreases
            (if t.i(back) >= t.i(front) {
                t.i(back) - t.i(front)
            } else {
                0
            }),
{
    if front == back {
        seq![front]
    } else {
        match preorder_next(l, t, front) {
            Some(next) => if t.i(front) < t.i(next) <= t.i(back) {
                seq![front] + forward_walk(l, t, next, back)
            } else {
                seq![front]
            },
            None => seq![front],
        }
    }
}

/// What stepping backward from `back` lists, down to `front`.
pub open spec fn backward_walk(
    l: Links,
    t: Preorder,
    front: LayerNodeIdentifier,
    back: LayerNodeIdentifier,
) -> Seq<LayerNodeIdentifier>
    decreases
            (if t.i(back) >= t.i(front) {
                t.i(back) - t.i(front)
            } else {
                0
            }),
{
    if front == back {
        seq![back]
    } else {
        match preorder_previous(l, t, back) {
            Some(previous) => if t.i(front) <= t.i(previous) < t.i(back) {
                seq![back] + backward_walk(l, t, front, previous)
            } else {
                seq![back]
            },
            None => seq![back],
        }
    }
}

/// The layers below each layer of `layers`, every layer right before what
/// lies below it.
pub open spec fn subtrees(l: Links, t: Preorder, layers: Seq<LayerNodeIdentifier>) -> Seq<
    LayerNodeIdentifier,
>
    decreases layers.len(),
{
    if layers.len() == 0 {
        Seq::empty()
    } else {
        seq![layers[0]] + descendants(l, t, layers[0]) + subtrees(l, t, layers.drop_first())
    }
}

/// In a tree the next sibling of the nearest ancestor that has one is listed
/// right after the interval of the layer.
pub proof fn lemma_next_after(l: Links, t: Preorder, x: LayerNodeIdentifier)
    requires
        tree_inv(l, t),
        l.contains_key(x),
    ensures
        next_after(l, t, x) == (if t.e(x) + 1 < t.order.len() {
            Some(t.order[t.e(x) + 1])
        } else {
            None
        }),
    decreases t.i(x),
{
    assert(place_ok(l, t, x));
    assert(parent_ok(l, t, x));
    assert(next_ok(l, t, x));
    assert(place_ok(l, t, root_id()));
    if x != root_id() {
        let p = l[x].parent.unwrap();
        assert(place_ok(l, t, p));
        if l[x].next_sibling is Some {
            lemma_next_is_sibling(l, t, x);
            assert(place_ok(l, t, l[x].next_sibling.unwrap()));
        } else {
            lemma_next_after(l, t, p);
        }
    }
}

/// In a tree the walk through the last children of a layer ends at the layer
/// listed last in its interval.
pub proof fn lemma_last_children_end(l: Links, t: Preorder, x: LayerNodeIdentifier)
    requires
        tree_inv(l, t),
        l.contains_key(x),
    ensures
        chain(l, t, Axis::LastChildren, Some(x)).last() == t.order[t.e(x)],
        l.contains_key(t.order[t.e(x)]),
        t.i(t.order[t.e(x)]) == t.e(x),
    decreases t.order.len() - t.i(x),
{
    lemma_chain_unfold(l, t, Axis::LastChildren, x);
    assert(place_ok(l, t, x));
    assert(children_ok(l, t, x));
    let tail = chain(l, t, Axis::LastChildren, l[x].last_child);
    if l[x].last_child is Some {
        let y = l[x].last_child.unwrap();
        assert(place_ok(l, t, y));
        assert(parent_ok(l, t, y));
        lemma_last_children_end(l, t, y);
        lemma_chain_unfold(l, t, Axis::LastChildren, y);
        assert(tail.len() > 0);
        assert((seq![x] + tail).last() == tail.last());
    } else {
        assert(tail =~= Seq::<LayerNodeIdentifier>::empty());
        assert(seq![x] + tail =~= seq![x]);
    }
}

/// In a tree the step forward leads to the layer listed next, and the step
/// backward to the layer listed before.
pub proof fn lemma_preorder_steps(l: Links, t: Preorder, x: LayerNodeIdentifier)
    requires
        tree_inv(l, t),
        l.contains_key(x),
    ensures
        preorder_next(l, t, x) == (if t.i(x) + 1 < t.order.len() {
            Some(t.order[t.i(x) + 1])
        } else {
            None
        }),
        preorder_previous(l, t, x) == (if t.i(x) >= 1 {
            Some(t.order[t.i(x) - 1])
        } else {
            None
        }),
{
    assert(place_ok(l, t, x));
    assert(parent_ok(l, t, x));
    assert(previous_ok(l, t, x));
    assert(children_ok(l, t, x));
    assert(place_ok(l, t, root_id()));
    if t.size[x] > 0 {
        lemma_first_is_child(l, t, x);
    } else {
        lemma_next_after(l, t, x);
    }
    if x != root_id() {
        let p = l[x].parent.unwrap();
        assert(place_ok(l, t, p));
        if l[x].previous_sibling is Some {
            lemma_last_children_end(l, t, l[x].previous_sibling.unwrap());
        }
    } else {
        assert(t.order[0] == root_id());
    }
}

/// Iterator symmetry. In a tree, stepping forward from a layer to a layer
/// listed after it lists the layers between the two in pre-order, and
/// stepping backward from the second to the first lists the same layers in
/// exactly the reverse order.
pub proof fn lemma_walk_symmetry(
    l: Links,
    t: Preorder,
    front: LayerNodeIdentifier,
    back: LayerNodeIdentifier,
)
    requires
        tree_inv(l, t),
        l.contains_key(front),
        l.contains_key(back),
        t.i(front) <= t.i(back),
    ensures
        forward_walk(l, t, front, back) == t.order.subrange(t.i(front), t.i(back) + 1),
        backward_walk(l, t, front, back) == forward_walk(l, t, front, back).reverse(),
    decreases t.i(back) - t.i(front),
{
    assert(place_ok(l, t, front));
    assert(place_ok(l, t, back));
    let listed = t.order.subrange(t.i(front), t.i(back) + 1);
    if front == back {
        assert(listed =~= seq![front]);
        assert(seq![front].reverse() =~= seq![back]);
    } else {
        lemma_preorder_steps(l, t, front);
        lemma_preorder_steps(l, t, back);
        let next = t.order[t.i(front) + 1];
        let previous = t.order[t.i(back) - 1];
        assert(l.contains_key(next) && t.i(next) == t.i(front) + 1);
        assert(l.contains_key(previous) && t.i(previous) == t.i(back) - 1);
        lemma_walk_symmetry(l, t, next, back);
        lemma_walk_symmetry(l, t, front, previous);
        assert(forward_walk(l, t, front, back) == seq![front] + forward_walk(l, t, next, back));
        assert(listed =~= seq![front] + t.order.subrange(t.i(next), t.i(back) + 1));
        assert(backward_walk(l, t, front, back) == seq![back] + backward_walk(
            l,
            t,
            front,
            previous,
        ));
        assert(seq![back] + t.order.subrange(t.i(front), t.i(previous) + 1).reverse()
            =~= listed.reverse());
    }
}

/// In a tree, the listing from a child of `p` to the end of the interval of
/// `p` holds this child and its later siblings, each right before what lies
/// below it.
pub proof fn lemma_siblings_cover(
    l: Links,
    t: Preorder,
    p: LayerNodeIdentifier,
    c: LayerNodeIdentifier,
)
    requires
        tree_inv(l, t),
        l.contains_key(c),
        c != root_id(),
        l[c].parent == Some(p),
    ensures
        t.order.subrange(t.i(c), t.e(p) + 1) == subtrees(
            l,
            t,
            chain(l, t, Axis::NextSiblings, Some(c)),
        ),
    decreases t.order.len() - t.i(c),
{
    lemma_chain_unfold(l, t, Axis::NextSiblings, c);
    assert(place_ok(l, t, c));
    assert(parent_ok(l, t, c));
    assert(next_ok(l, t, c));
    assert(place_ok(l, t, p));
    let listed = t.order.subrange(t.i(c), t.e(p) + 1);
    let siblings = chain(l, t, Axis::NextSiblings, Some(c));
    let tail = chain(l, t, Axis::NextSiblings, l[c].next_sibling);
    assert(siblings.drop_first() =~= tail);
    assert(siblings[0] == c);
    if l[c].next_sibling is Some {
        let n = l[c].next_sibling.unwrap();
        lemma_next_is_sibling(l, t, c);
        assert(place_ok(l, t, n));
        lemma_siblings_cover(l, t, p, n);
        assert(listed =~= seq![c] + descendants(l, t, c) + t.order.subrange(t.i(n), t.e(p) + 1));
    } else {
        assert(tail =~= Seq::<LayerNodeIdentifier>::empty());
        assert(subtrees(l, t, tail) =~= Seq::<LayerNodeIdentifier>::empty());
        assert(listed =~= seq![c] + descendants(l, t, c) + Seq::<LayerNodeIdentifier>::empty());
    }
}

} // verus!
