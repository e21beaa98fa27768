//! What holds of every tree, whatever edits made it.

use vstd::prelude::*;
use crate::identifier::LayerNodeIdentifier;
use crate::metadata::DocumentMetadata;
use crate::model::{
    Links, Preorder, root_id, tree_inv, place_ok, parent_ok, children_ok, next_ok,
    previous_ok, lemma_next_is_sibling, lemma_first_is_child, lemma_innermost,
    lemma_same_end,
};
use crate::walk::{Axis, chain, lemma_chain_unfold};
use crate::preorder::{subtrees, lemma_siblings_cover, forward_walk, backward_walk, lemma_walk_symmetry};
use crate::descendants::DecendantsIter;

verus! {

/// The layers of `s` are children of `p`, and they stand in the order of the
/// listing if `rising`, against it if not.
pub open spec fn children_in_order(
    l: Links,
    t: Preorder,
    p: LayerNodeIdentifier,
    s: Seq<LayerNodeIdentifier>,
    rising: bool,
) -> bool {
    &&& forall|k: int|
        0 <= k < s.len() ==> l.contains_key(#[trigger] s[k]) && s[k] != root_id() && l[s[k]].parent
            == Some(p)
    &&& forall|j: int, k: int|
        0 <= j < k < s.len() ==> if rising {
            t.i(#[trigger] s[j]) < t.i(#[trigger] s[k])
        } else {
            t.i(s[j]) > t.i(s[k])
        }
}

/// Following the next-sibling links from a child `c` of `p` visits children of
/// `p` only, each later in the listing than the one before, and misses none
/// that is listed after `c`.
pub proof fn lemma_forward_chain(
    l: Links,
    t: Preorder,
    p: LayerNodeIdentifier,
    c: LayerNodeIdentifier,
)
    requires
        tree_inv(l, t),
        l.contains_key(c),
        c != root_id(),
        l[c].parent == Some(p),
    ensures
        ({
            let s = chain(l, t, Axis::NextSiblings, Some(c));
            &&& s.len() >= 1
            &&& s[0] == c
            &&& children_in_order(l, t, p, s, true)
            &&& forall|x: LayerNodeIdentifier|
                l.contains_key(x) && x != root_id() && l[x].parent == Some(p) && t.i(x) >= t.i(c)
                    ==> #[trigger] s.contains(x)
        }),
    decreases t.order.len() - t.i(c),
{
    let s = chain(l, t, Axis::NextSiblings, Some(c));
    lemma_chain_unfold(l, t, Axis::NextSiblings, c);
    assert(place_ok(l, t, c));
    assert(parent_ok(l, t, c));
    assert(next_ok(l, t, c));
    assert(place_ok(l, t, p));
    let tail = chain(l, t, Axis::NextSiblings, l[c].next_sibling);
    assert(s == seq![c] + tail);
    if l[c].next_sibling is Some {
        let n = l[c].next_sibling.unwrap();
        lemma_next_is_sibling(l, t, c);
        assert(place_ok(l, t, n));
        lemma_forward_chain(l, t, p, n);
        assert forall|j: int, k: int| 0 <= j < k < s.len() implies t.i(#[trigger] s[j]) < t.i(
            #[trigger] s[k],
        ) by {
            assert(s[k] == tail[k - 1]);
            if j > 0 {
                assert(s[j] == tail[j - 1]);
            } else {
                assert(tail[0] == n);
                if k > 1 {
                    assert(t.i(tail[0]) < t.i(tail[k - 1]));
                }
            }
        }
        assert forall|k: int| 0 <= k < s.len() implies l.contains_key(#[trigger] s[k]) && s[k]
            != root_id() && l[s[k]].parent == Some(p) by {
            if k > 0 {
                assert(s[k] == tail[k - 1]);
            }
        }
    } else {
        assert(tail =~= Seq::<LayerNodeIdentifier>::empty());
        assert(s =~= seq![c]);
    }
    assert forall|x: LayerNodeIdentifier|
        l.contains_key(x) && x != root_id() && l[x].parent == Some(p) && t.i(x) >= t.i(
            c,
        ) implies #[trigger] s.contains(x) by {
        assert(place_ok(l, t, x));
        assert(parent_ok(l, t, x));
        if t.i(x) == t.i(c) {
            assert(s[0] == x);
        } else if t.i(x) <= t.e(c) {
            lemma_innermost(l, t, c, x);
            assert(false);
        } else {
            assert(tail.contains(x));
            let k = choose|k: int| 0 <= k < tail.len() && tail[k] == x;
            assert(s[k + 1] == x);
        }
    }
}

/// Following the previous-sibling links from a child `c` of `p` visits
/// children of `p` only, each earlier in the listing than the one before, and
/// misses none that is listed before `c`.
pub proof fn lemma_backward_chain(
    l: Links,
    t: Preorder,
    p: LayerNodeIdentifier,
    c: LayerNodeIdentifier,
)
    requires
        tree_inv(l, t),
        l.contains_key(c),
        c != root_id(),
        l[c].parent == Some(p),
    ensures
        ({
            let s = chain(l, t, Axis::PreviousSiblings, Some(c));
            &&& s.len() >= 1
            &&& s[0] == c
            &&& children_in_order(l, t, p, s, false)
            &&& forall|x: LayerNodeIdentifier|
                l.contains_key(x) && x != root_id() && l[x].parent == Some(p) && t.i(x) <= t.i(c)
                    ==> #[trigger] s.contains(x)
        }),
    decreases t.i(c),
{
    let s = chain(l, t, Axis::PreviousSiblings, Some(c));
    lemma_chain_unfold(l, t, Axis::PreviousSiblings, c);
    assert(place_ok(l, t, c));
    assert(parent_ok(l, t, c));
    assert(previous_ok(l, t, c));
    assert(place_ok(l, t, p));
    let tail = chain(l, t, Axis::PreviousSiblings, l[c].previous_sibling);
    assert(s == seq![c] + tail);
    if l[c].previous_sibling is Some {
        let n = l[c].previous_sibling.unwrap();
        assert(place_ok(l, t, n));
        lemma_backward_chain(l, t, p, n);
        assert forall|j: int, k: int| 0 <= j < k < s.len() implies t.i(#[trigger] s[j]) > t.i(
            #[trigger] s[k],
        ) by {
            assert(s[k] == tail[k - 1]);
            if j > 0 {
                assert(s[j] == tail[j - 1]);
            } else {
                assert(tail[0] == n);
                if k > 1 {
                    assert(t.i(tail[0]) > t.i(tail[k - 1]));
                }
            }
        }
        assert forall|k: int| 0 <= k < s.len() implies l.contains_key(#[trigger] s[k]) && s[k]
            != root_id() && l[s[k]].parent == Some(p) by {
            if k > 0 {
                assert(s[k] == tail[k - 1]);
            }
        }
    } else {
        assert(tail =~= Seq::<LayerNodeIdentifier>::empty());
        assert(s =~= seq![c]);
    }
    assert forall|x: LayerNodeIdentifier|
        l.contains_key(x) && x != root_id() && l[x].parent == Some(p) && t.i(x) <= t.i(
            c,
        ) implies #[trigger] s.contains(x) by {
        assert(place_ok(l, t, x));
        assert(parent_ok(l, t, x));
        if t.i(x) == t.i(c) {
            assert(s[0] == x);
        } else if l[c].previous_sibling is None {
            lemma_first_is_child(l, t, p);
            assert(false);
        } else {
            let n = l[c].previous_sibling.unwrap();
            if t.i(x) > t.i(n) {
                assert(place_ok(l, t, n));
                assert(parent_ok(l, t, n));
                lemma_innermost(l, t, n, x);
                assert(false);
            }
            assert(tail.contains(x));
            let k = choose|k: int| 0 <= k < tail.len() && tail[k] == x;
            assert(s[k + 1] == x);
        }
    }
}

/// From the last child of `p`, the previous-sibling links lead back through
/// what the next-sibling links visit from `c` on, in reverse, and then on
/// from `c`.
pub proof fn lemma_chains_mirror(
    l: Links,
    t: Preorder,
    p: LayerNodeIdentifier,
    c: LayerNodeIdentifier,
)
    requires
        tree_inv(l, t),
        l.contains_key(p),
        l.contains_key(c),
        c != root_id(),
        l[c].parent == Some(p),
    ensures
        chain(l, t, Axis::PreviousSiblings, l[p].last_child) == chain(
            l,
            t,
            Axis::NextSiblings,
            Some(c),
        ).reverse().drop_last() + chain(l, t, Axis::PreviousSiblings, Some(c)),
    decreases t.order.len() - t.i(c),
{
    let forward = chain(l, t, Axis::NextSiblings, Some(c));
    lemma_chain_unfold(l, t, Axis::NextSiblings, c);
    assert(place_ok(l, t, c));
    assert(parent_ok(l, t, c));
    assert(next_ok(l, t, c));
    assert(place_ok(l, t, p));
    assert(children_ok(l, t, p));
    if l[c].next_sibling is Some {
        let n = l[c].next_sibling.unwrap();
        lemma_next_is_sibling(l, t, c);
        assert(place_ok(l, t, n));
        lemma_chains_mirror(l, t, p, n);
        lemma_chain_unfold(l, t, Axis::PreviousSiblings, n);
        lemma_chain_unfold(l, t, Axis::NextSiblings, n);
        let tail = chain(l, t, Axis::NextSiblings, Some(n));
        assert(forward == seq![c] + tail);
        assert(tail[0] == n);
        assert(forward.reverse().drop_last() =~= tail.reverse());
        assert(tail.reverse() =~= tail.reverse().drop_last() + seq![n]);
        assert(tail.reverse().drop_last() + (seq![n] + chain(
            l,
            t,
            Axis::PreviousSiblings,
            Some(c),
        )) =~= tail.reverse() + chain(l, t, Axis::PreviousSiblings, Some(c)));
    } else {
        lemma_same_end(l, t, l[p].last_child.unwrap(), c);
        assert(chain(l, t, Axis::NextSiblings, None) =~= Seq::<LayerNodeIdentifier>::empty());
        assert(forward =~= seq![c]);
        assert(forward.reverse().drop_last() =~= Seq::<LayerNodeIdentifier>::empty());
        assert(Seq::<LayerNodeIdentifier>::empty() + chain(
            l,
            t,
            Axis::PreviousSiblings,
            Some(c),
        ) =~= chain(l, t, Axis::PreviousSiblings, Some(c)));
    }
}

/// Tree consistency. In a tree, every layer but the root has a parent in the
/// tree, and stands exactly once among what the next-sibling links list from
/// the parent's first child, and exactly once among what the previous-sibling
/// links list from the parent's last child. Both lists hold children of that
/// parent only, and the second is the first one reversed.
pub proof fn lemma_tree_consistency(document_metadata: DocumentMetadata, layer: LayerNodeIdentifier)
    requires
        document_metadata.wf(),
        document_metadata@.contains_key(layer),
        layer != root_id(),
    ensures
        ({
            let parent = document_metadata@[layer].parent;
            let forward = document_metadata.spec_children(parent.unwrap());
            let backward = document_metadata.spec_children_backward(parent.unwrap());
            &&& parent is Some
            &&& document_metadata@.contains_key(parent.unwrap())
            &&& forward.contains(layer)
            &&& forward.no_duplicates()
            &&& backward.contains(layer)
            &&& backward.no_duplicates()
            &&& backward == forward.reverse()
            &&& forall|k: int|
                0 <= k < forward.len() ==> (#[trigger] document_metadata@[forward[k]]).parent
                    == parent
        }),
{
    let l = document_metadata@;
    let t = document_metadata.listing();
    assert(place_ok(l, t, layer));
    assert(parent_ok(l, t, layer));
    let p = l[layer].parent.unwrap();
    assert(place_ok(l, t, p));
    assert(children_ok(l, t, p));
    lemma_first_is_child(l, t, p);
    let first = l[p].first_child.unwrap();
    let last = l[p].last_child.unwrap();
    assert(place_ok(l, t, last));
    assert(parent_ok(l, t, last));
    let forward = document_metadata.spec_children(p);
    let backward = document_metadata.spec_children_backward(p);
    lemma_forward_chain(l, t, p, first);
    lemma_backward_chain(l, t, p, last);
    lemma_chains_mirror(l, t, p, first);
    lemma_chain_unfold(l, t, Axis::PreviousSiblings, first);
    assert(previous_ok(l, t, first));
    assert(chain(l, t, Axis::PreviousSiblings, None) =~= Seq::<LayerNodeIdentifier>::empty());
    assert(chain(l, t, Axis::PreviousSiblings, Some(first)) =~= seq![first]);
    assert(forward.reverse() =~= forward.reverse().drop_last() + seq![first]);
    assert(forward.contains(layer));
    assert(backward.contains(layer));
}

/// Pre-order. What lies below a layer of a tree is listed child by child, in
/// the order of the child list, every child right before what lies below it.
pub proof fn lemma_descendants_in_preorder(
    document_metadata: DocumentMetadata,
    layer: LayerNodeIdentifier,
)
    requires
        document_metadata.wf(),
        document_metadata@.contains_key(layer),
    ensures
        document_metadata.spec_descendants(layer) == subtrees(
            document_metadata@,
            document_metadata.listing(),
            document_metadata.spec_children(layer),
        ),
{
    let l = document_metadata@;
    let t = document_metadata.listing();
    assert(place_ok(l, t, layer));
    assert(children_ok(l, t, layer));
    if t.size[layer] > 0 {
        lemma_first_is_child(l, t, layer);
        lemma_siblings_cover(l, t, layer, l[layer].first_child.unwrap());
    } else {
        assert(document_metadata.spec_descendants(layer) =~= Seq::<LayerNodeIdentifier>::empty());
    }
}

/// Iterator symmetry. What a walk through the descendants hands out from the
/// front, step by step, and what it hands out from the back are the same
/// layers in exactly reverse order, whatever layers the cursors stand on.
pub proof fn lemma_iterator_symmetry(walk: DecendantsIter)
    requires
        walk.wf(),
        walk.front() is Some,
    ensures
        walk.remaining() == forward_walk(
            walk.document()@,
            walk.document().listing(),
            walk.front().unwrap(),
            walk.back().unwrap(),
        ),
        walk.remaining().reverse() == backward_walk(
            walk.document()@,
            walk.document().listing(),
            walk.front().unwrap(),
            walk.back().unwrap(),
        ),
{
    lemma_walk_symmetry(
        walk.document()@,
        walk.document().listing(),
        walk.front().unwrap(),
        walk.back().unwrap(),
    );
}

} // verus!
