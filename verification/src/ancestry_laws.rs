//! What the answers about ancestry mean: the paths that are kept are the ones
//! with nothing above them in the list, the shared path is the longest one,
//! and the folders come out deepest first.

use vstd::prelude::*;
use crate::identifier::LayerNodeIdentifier;
use crate::metadata::DocumentMetadata;
use crate::model::{root_id};
use crate::walk::{Axis, chain, lemma_chain_unfold};
use crate::ancestry::{
    Path, lex_le, has_prefix, sorted_paths, dedup_paths, common_len, common_of, deepest_common,
    slot, most_nested_first, lemma_prefix_between,
};

verus! {

/// A path comes before every path that starts with it.
pub proof fn lemma_prefix_le(p: Path, x: Path)
    requires
        has_prefix(x, p),
    ensures
        lex_le(p, x),
    decreases p.len(),
{
    if p.len() > 0 {
        assert(x.take(p.len() as int)[0] == p[0]);
        assert(x.drop_first().take(p.drop_first().len() as int) =~= x.take(
            p.len() as int,
        ).drop_first());
        lemma_prefix_le(p.drop_first(), x.drop_first());
    }
}

/// Two paths that come before each other are one.
pub proof fn lemma_lex_antisymmetric(a: Path, b: Path)
    requires
        lex_le(a, b),
        lex_le(b, a),
    ensures
        a == b,
    decreases a.len(),
{
    if a.len() > 0 {
        lemma_lex_antisymmetric(a.drop_first(), b.drop_first());
        assert(a =~= seq![a[0]] + a.drop_first());
        assert(b =~= seq![b[0]] + b.drop_first());
    } else {
        assert(a =~= b);
    }
}

/// What is kept of a sorted list of paths: only paths of the list; for every
/// path of the list one that it starts with; no two paths of which one starts
/// with the other; and all of it in order.
pub open spec fn shallowest_of(kept: Seq<Path>, sorted: Seq<Path>) -> bool {
    &&& forall|j: int| 0 <= j < kept.len() ==> sorted.contains(#[trigger] kept[j])
    &&& forall|i: int|
        0 <= i < sorted.len() ==> exists|j: int|
            0 <= j < kept.len() && has_prefix(#[trigger] sorted[i], #[trigger] kept[j])
    &&& forall|i: int, j: int|
        0 <= i < j < kept.len() ==> !has_prefix(#[trigger] kept[j], #[trigger] kept[i])
            && !has_prefix(kept[i], kept[j])
    &&& sorted_paths(kept)
}

/// What is kept of a list of paths are paths of the list, and at least one
/// if the list has any.
pub proof fn lemma_dedup_members(paths: Seq<Path>)
    ensures
        forall|j: int|
            0 <= j < dedup_paths(paths).len() ==> paths.contains(#[trigger] dedup_paths(paths)[j]),
        paths.len() > 0 ==> dedup_paths(paths).len() > 0,
    decreases paths.len(),
{
    if paths.len() > 0 {
        let before = paths.drop_last();
        let kept = dedup_paths(before);
        let result = dedup_paths(paths);
        lemma_dedup_members(before);
        assert forall|j: int| 0 <= j < result.len() implies paths.contains(#[trigger] result[j]) by {
            if j < kept.len() {
                assert(result[j] == kept[j]);
                assert(before.contains(kept[j]));
                let m = choose|m: int| 0 <= m < before.len() && before[m] == kept[j];
                assert(paths[m] == kept[j]);
            } else {
                assert(paths[paths.len() - 1] == result[j]);
            }
        }
    }
}

/// Every path of a list starts with one of the paths that are kept.
pub proof fn lemma_dedup_cover(paths: Seq<Path>, i: int)
    requires
        0 <= i < paths.len(),
    ensures
        exists|j: int|
            0 <= j < dedup_paths(paths).len() && has_prefix(
                paths[i],
                #[trigger] dedup_paths(paths)[j],
            ),
    decreases paths.len(),
{
    let before = paths.drop_last();
    let x = paths.last();
    let kept = dedup_paths(before);
    let result = dedup_paths(paths);
    if i < before.len() {
        lemma_dedup_cover(before, i);
        assert(before[i] == paths[i]);
        let j = choose|j: int| 0 <= j < kept.len() && has_prefix(before[i], #[trigger] kept[j]);
        assert(result[j] == kept[j]);
    } else if kept.len() > 0 && has_prefix(x, kept.last()) {
        assert(result[kept.len() - 1] == kept.last());
    } else {
        assert(x.take(x.len() as int) =~= x);
        assert(result[kept.len() as int] == x);
    }
}

/// Of a sorted list of paths, none of the paths that are kept starts with
/// another one of them, and they are in order.
pub proof fn lemma_dedup_apart(sorted: Seq<Path>)
    requires
        sorted_paths(sorted),
    ensures
        forall|i: int, j: int|
            0 <= i < j < dedup_paths(sorted).len() ==> !has_prefix(
                #[trigger] dedup_paths(sorted)[j],
                #[trigger] dedup_paths(sorted)[i],
            ) && !has_prefix(dedup_paths(sorted)[i], dedup_paths(sorted)[j]),
        sorted_paths(dedup_paths(sorted)),
    decreases sorted.len(),
{
    if sorted.len() > 0 {
        let before = sorted.drop_last();
        let x = sorted.last();
        let kept = dedup_paths(before);
        let result = dedup_paths(sorted);
        assert(sorted_paths(before)) by {
            assert forall|i: int, j: int| 0 <= i < j < before.len() implies lex_le(
                #[trigger] before[i],
                #[trigger] before[j],
            ) by {
                assert(before[i] == sorted[i] && before[j] == sorted[j]);
            }
        }
        lemma_dedup_apart(before);
        lemma_dedup_members(before);
        if !(kept.len() > 0 && has_prefix(x, kept.last())) {
            assert(result == kept.push(x));
            assert forall|i: int| 0 <= i < kept.len() implies #[trigger] lex_le(kept[i], x) by {
                assert(before.contains(kept[i]));
                let m = choose|m: int| 0 <= m < before.len() && before[m] == kept[i];
                assert(sorted[m] == kept[i]);
                assert(sorted[sorted.len() - 1] == x);
            }
            assert forall|i: int, j: int| 0 <= i < j < result.len() implies !has_prefix(
                #[trigger] result[j],
                #[trigger] result[i],
            ) && !has_prefix(result[i], result[j]) by {
                assert(result[i] == kept[i]);
                if j < kept.len() {
                    assert(result[j] == kept[j]);
                } else {
                    lemma_kept_apart(kept, x, i);
                }
            }
            assert forall|i: int, j: int| 0 <= i < j < result.len() implies lex_le(
                #[trigger] result[i],
                #[trigger] result[j],
            ) by {
                assert(result[i] == kept[i]);
                if j < kept.len() {
                    assert(result[j] == kept[j]);
                } else {
                    assert(lex_le(kept[i], x));
                }
            }
        }
    }
}

/// A path that comes after all kept paths and does not start with the last of
/// them starts with none of them, and none of them starts with it.
pub proof fn lemma_kept_apart(kept: Seq<Path>, x: Path, i: int)
    requires
        0 <= i < kept.len(),
        sorted_paths(kept),
        forall|j: int| 0 <= j < kept.len() ==> #[trigger] lex_le(kept[j], x),
        !has_prefix(x, kept.last()),
        forall|a: int, b: int|
            0 <= a < b < kept.len() ==> !has_prefix(#[trigger] kept[b], #[trigger] kept[a]),
    ensures
        !has_prefix(x, kept[i]),
        !has_prefix(kept[i], x),
{
    let last = kept.last();
    assert(lex_le(kept[i], x));
    assert(lex_le(last, x));
    if has_prefix(x, kept[i]) {
        if i < kept.len() - 1 {
            assert(lex_le(kept[i], kept[kept.len() - 1]));
            lemma_prefix_between(kept[i], last, x);
            assert(false);
        }
    }
    if has_prefix(kept[i], x) {
        lemma_prefix_le(x, kept[i]);
        lemma_lex_antisymmetric(kept[i], x);
        assert(x.take(x.len() as int) =~= x);
    }
}

/// Shallowest cover. Of a sorted list of paths, the paths that are kept are
/// the ones that start with no other path of the list, each of them once.
pub proof fn lemma_dedup_paths(sorted: Seq<Path>)
    requires
        sorted_paths(sorted),
    ensures
        shallowest_of(dedup_paths(sorted), sorted),
{
    lemma_dedup_members(sorted);
    lemma_dedup_apart(sorted);
    assert forall|i: int| 0 <= i < sorted.len() implies exists|j: int|
        0 <= j < dedup_paths(sorted).len() && has_prefix(
            #[trigger] sorted[i],
            #[trigger] dedup_paths(sorted)[j],
        ) by {
        lemma_dedup_cover(sorted, i);
    }
}

/// `p` is a prefix of the first `common_len` layers of two paths that both
/// start with it.
pub proof fn lemma_common_len(a: Path, b: Path, p: Path)
    ensures
        common_len(a, b) <= a.len(),
        common_len(a, b) <= b.len(),
        has_prefix(a, a.take(common_len(a, b) as int)),
        has_prefix(b, a.take(common_len(a, b) as int)),
        has_prefix(a, p) && has_prefix(b, p) ==> has_prefix(a.take(common_len(a, b) as int), p),
    decreases a.len(),
{
    let n = common_len(a, b) as int;
    if a.len() == 0 || b.len() == 0 || a[0] != b[0] {
        assert(a.take(0) =~= Seq::<LayerNodeIdentifier>::empty());
        assert(b.take(0) =~= Seq::<LayerNodeIdentifier>::empty());
        assert(a.take(0).take(0) =~= a.take(0));
        if has_prefix(a, p) && has_prefix(b, p) && p.len() > 0 {
            assert(a.take(p.len() as int)[0] == p[0]);
            assert(b.take(p.len() as int)[0] == p[0]);
        }
        if p.len() == 0 {
            assert(a.take(0).take(0) =~= p);
        }
    } else {
        let a_tail = a.drop_first();
        let b_tail = b.drop_first();
        let p_tail = p.drop_first();
        lemma_common_len(a_tail, b_tail, p_tail);
        let m = common_len(a_tail, b_tail) as int;
        assert(a.take(n) =~= seq![a[0]] + a_tail.take(m));
        assert(a.take(n).take(n) =~= a.take(n));
        assert(b.take(n) =~= seq![b[0]] + b_tail.take(m));
        assert(a_tail.take(m).take(m) =~= a_tail.take(m));
        assert(b_tail.take(m) == a_tail.take(m));
        if has_prefix(a, p) && has_prefix(b, p) {
            if p.len() == 0 {
                assert(a.take(n).take(0) =~= p);
            } else {
                assert(a.take(p.len() as int)[0] == p[0]);
                assert(a_tail.take(p_tail.len() as int) =~= a.take(p.len() as int).drop_first());
                assert(b_tail.take(p_tail.len() as int) =~= b.take(p.len() as int).drop_first());
                assert(has_prefix(a_tail.take(m), p_tail));
                assert(a.take(n).take(p.len() as int) =~= seq![a[0]] + a_tail.take(m).take(
                    p_tail.len() as int,
                ));
                assert(p =~= seq![p[0]] + p_tail);
            }
        }
    }
}

/// Starting with a path that starts with another one means starting with the
/// other one too.
pub proof fn lemma_prefix_transitive(x: Path, y: Path, z: Path)
    requires
        has_prefix(x, y),
        has_prefix(y, z),
    ensures
        has_prefix(x, z),
{
    assert(x.take(z.len() as int) =~= x.take(y.len() as int).take(z.len() as int));
}

/// Longest shared path. Every path of the list starts with the shared path,
/// and the shared path starts with every path that all of them start with.
pub proof fn lemma_common_of(paths: Seq<Path>, p: Path)
    requires
        paths.len() > 0,
    ensures
        forall|i: int| 0 <= i < paths.len() ==> has_prefix(#[trigger] paths[i], common_of(paths)),
        (forall|i: int| 0 <= i < paths.len() ==> has_prefix(#[trigger] paths[i], p)) ==> has_prefix(
            common_of(paths),
            p,
        ),
    decreases paths.len(),
{
    let common = common_of(paths);
    if paths.len() == 1 {
        assert(paths[0].take(paths[0].len() as int) =~= paths[0]);
    } else {
        let before = paths.drop_last();
        let shared = common_of(before);
        lemma_common_of(before, p);
        lemma_common_len(shared, paths.last(), p);
        assert forall|i: int| 0 <= i < paths.len() implies has_prefix(
            #[trigger] paths[i],
            common,
        ) by {
            if i < before.len() {
                assert(before[i] == paths[i]);
                lemma_prefix_transitive(paths[i], shared, common);
            }
        }
        if forall|i: int| 0 <= i < paths.len() ==> has_prefix(#[trigger] paths[i], p) {
            assert forall|i: int| 0 <= i < before.len() implies has_prefix(
                #[trigger] before[i],
                p,
            ) by {
                assert(before[i] == paths[i]);
            }
            assert(has_prefix(paths[paths.len() - 1], p));
        }
    }
}

/// Two different children of the root share the root as their deepest
/// ancestor, whether they are folders or not and whether a layer counts as
/// its own ancestor or not.
pub proof fn lemma_siblings_below_root(
    document_metadata: DocumentMetadata,
    a: LayerNodeIdentifier,
    b: LayerNodeIdentifier,
    include_self: bool,
)
    requires
        document_metadata.wf(),
        document_metadata@.contains_key(a),
        document_metadata@.contains_key(b),
        a != b,
        document_metadata@[a].parent == Some(root_id()),
        document_metadata@[b].parent == Some(root_id()),
    ensures
        deepest_common(
            seq![
                document_metadata.spec_candidate_path(a, include_self),
                document_metadata.spec_candidate_path(b, include_self),
            ],
        ) == Some(root_id()),
{
    let l = document_metadata@;
    let t = document_metadata.listing();
    lemma_chain_unfold(l, t, Axis::Ancestors, a);
    lemma_chain_unfold(l, t, Axis::Ancestors, b);
    lemma_chain_unfold(l, t, Axis::Ancestors, root_id());
    assert(chain(l, t, Axis::Ancestors, None) =~= Seq::<LayerNodeIdentifier>::empty());
    assert(document_metadata.spec_ancestors(a) =~= seq![a, root_id()]);
    assert(document_metadata.spec_ancestors(b) =~= seq![b, root_id()]);
    assert(document_metadata.spec_path(a) =~= seq![root_id(), a]);
    assert(document_metadata.spec_path(b) =~= seq![root_id(), b]);
    let ca = document_metadata.spec_candidate_path(a, include_self);
    let cb = document_metadata.spec_candidate_path(b, include_self);
    assert(seq![root_id(), a].drop_last() =~= seq![root_id()]);
    assert(seq![root_id(), b].drop_last() =~= seq![root_id()]);
    assert(ca[0] == root_id() && cb[0] == root_id());
    assert(ca.drop_first() =~= (if ca.len() == 2 {
        seq![a]
    } else {
        Seq::<LayerNodeIdentifier>::empty()
    }));
    assert(cb.drop_first() =~= (if cb.len() == 2 {
        seq![b]
    } else {
        Seq::<LayerNodeIdentifier>::empty()
    }));
    assert(common_len(ca.drop_first(), cb.drop_first()) == 0);
    assert(common_len(ca, cb) == 1);
    let paths = seq![ca, cb];
    assert(paths.drop_last() =~= seq![ca]);
    assert(common_of(seq![ca]) == ca);
    assert(common_of(paths) == ca.take(1));
    assert(ca.take(1) =~= seq![root_id()]);
}

/// The layers before the slot are as deep as asked or deeper, and the layer
/// at the slot is less deep.
pub proof fn lemma_slot(
    sorted: Seq<LayerNodeIdentifier>,
    depth: nat,
    depth_of: spec_fn(LayerNodeIdentifier) -> nat,
)
    ensures
        slot(sorted, depth, depth_of) <= sorted.len(),
        forall|j: int|
            0 <= j < slot(sorted, depth, depth_of) ==> depth_of(#[trigger] sorted[j]) >= depth,
        slot(sorted, depth, depth_of) < sorted.len() ==> depth_of(
            sorted[slot(sorted, depth, depth_of) as int],
        ) < depth,
    decreases sorted.len(),
{
    if sorted.len() > 0 && depth_of(sorted[0]) >= depth {
        let rest = sorted.drop_first();
        lemma_slot(rest, depth, depth_of);
        assert forall|j: int| 0 <= j < slot(sorted, depth, depth_of) implies depth_of(
            #[trigger] sorted[j],
        ) >= depth by {
            if j > 0 {
                assert(sorted[j] == rest[j - 1]);
            }
        }
        if slot(sorted, depth, depth_of) < sorted.len() {
            assert(sorted[slot(sorted, depth, depth_of) as int] == rest[slot(
                rest,
                depth,
                depth_of,
            ) as int]);
        }
    }
}

/// Deepest first. The sorted layers are the given ones, each as often as it
/// was given, and none of them is deeper than one before it.
pub proof fn lemma_most_nested_first(
    layers: Seq<LayerNodeIdentifier>,
    depth_of: spec_fn(LayerNodeIdentifier) -> nat,
)
    ensures
        most_nested_first(layers, depth_of).to_multiset() == layers.to_multiset(),
        most_nested_first(layers, depth_of).len() == layers.len(),
        forall|i: int, j: int|
            0 <= i < j < layers.len() ==> depth_of(
                #[trigger] most_nested_first(layers, depth_of)[i],
            ) >= depth_of(#[trigger] most_nested_first(layers, depth_of)[j]),
    decreases layers.len(),
{
    let result = most_nested_first(layers, depth_of);
    if layers.len() > 0 {
        let before = layers.drop_last();
        let x = layers.last();
        let sorted = most_nested_first(before, depth_of);
        lemma_most_nested_first(before, depth_of);
        lemma_slot(sorted, depth_of(x), depth_of);
        let at = slot(sorted, depth_of(x), depth_of) as int;
        assert(result == sorted.insert(at, x));
        vstd::seq_lib::to_multiset_insert(sorted, at, x);
        vstd::seq_lib::to_multiset_build(before, x);
        assert(layers =~= before.push(x));
        assert forall|i: int, j: int| 0 <= i < j < layers.len() implies depth_of(
            #[trigger] result[i],
        ) >= depth_of(#[trigger] result[j]) by {
            let i0 = if i < at {
                i
            } else {
                i - 1
            };
            let j0 = if j < at {
                j
            } else {
                j - 1
            };
            if i != at {
                assert(result[i] == sorted[i0]);
            }
            if j != at {
                assert(result[j] == sorted[j0]);
            }
            if i == at {
                if at < j0 {
                    assert(depth_of(sorted[at]) >= depth_of(sorted[j0]));
                }
            }
        }
    } else {
        assert(result =~= layers);
    }
}

} // verus!
