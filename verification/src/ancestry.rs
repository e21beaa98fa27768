//! Questions about where layers stand relative to each other: the layers of a
//! list that are not below another one of the list, the deepest ancestor that
//! a list of layers shares, and folders ordered by their depth.

use vstd::prelude::*;
use crate::identifier::{LayerNodeIdentifier, ROOT_NODE};
use crate::metadata::DocumentMetadata;
use crate::model::root_id;

verus! {

/// A way through the tree, from an ancestor down to a layer.
pub type Path = Seq<LayerNodeIdentifier>;

/// `a` comes before `b`, or is `b`, in the order of a dictionary, where layers
/// are compared by their node keys.
pub open spec fn lex_le(a: Path, b: Path) -> bool
    decreases a.len(),
{
    if a.len() == 0 {
        true
    } else if b.len() == 0 {
        false
    } else if a[0].0 != b[0].0 {
        a[0].0 < b[0].0
    } else {
        lex_le(a.drop_first(), b.drop_first())
    }
}

/// `x` starts with all of `p`.
pub open spec fn has_prefix(x: Path, p: Path) -> bool {
    p.len() <= x.len() && x.take(p.len() as int) == p
}

/// Every path of `s` comes before the ones after it.
pub open spec fn sorted_paths(s: Seq<Path>) -> bool {
    forall|i: int, j: int| 0 <= i < j < s.len() ==> lex_le(#[trigger] s[i], #[trigger] s[j])
}

/// `s` without every path that starts with the path kept last before it.
pub open spec fn dedup_paths(s: Seq<Path>) -> Seq<Path>
    decreases s.len(),
{
    if s.len() == 0 {
        Seq::empty()
    } else {
        let kept = dedup_paths(s.drop_last());
        if kept.len() > 0 && has_prefix(s.last(), kept.last()) {
            kept
        } else {
            kept.push(s.last())
        }
    }
}

/// The number of leading layers that `a` and `b` share.
pub open spec fn common_len(a: Path, b: Path) -> nat
    decreases a.len(),
{
    if a.len() == 0 || b.len() == 0 || a[0] != b[0] {
        0
    } else {
        1 + common_len(a.drop_first(), b.drop_first())
    }
}

/// The longest path that all of `paths` start with.
pub open spec fn common_of(paths: Seq<Path>) -> Path
    decreases paths.len(),
{
    if paths.len() == 0 {
        Seq::empty()
    } else if paths.len() == 1 {
        paths[0]
    } else {
        let before = common_of(paths.drop_last());
        before.take(common_len(before, paths.last()) as int)
    }
}

/// The last layer of the longest path that all of `paths` start with.
pub open spec fn deepest_common(paths: Seq<Path>) -> Option<LayerNodeIdentifier> {
    let common = common_of(paths);
    if common.len() == 0 {
        None
    } else {
        Some(common.last())
    }
}

/// The place of a layer of depth `depth` in `sorted`: behind the layers that
/// are as deep or deeper.
pub open spec fn slot(sorted: Seq<LayerNodeIdentifier>, depth: nat, depth_of: spec_fn(LayerNodeIdentifier) -> nat) -> nat
    decreases sorted.len(),
{
    if sorted.len() == 0 || depth_of(sorted[0]) < depth {
        0
    } else {
        1 + slot(sorted.drop_first(), depth, depth_of)
    }
}

/// The layers of `layers`, the deepest first; layers of one depth keep their
/// order.
pub open spec fn most_nested_first(
    layers: Seq<LayerNodeIdentifier>,
    depth_of: spec_fn(LayerNodeIdentifier) -> nat,
) -> Seq<LayerNodeIdentifier>
    decreases layers.len(),
{
    if layers.len() == 0 {
        Seq::empty()
    } else {
        let sorted = most_nested_first(layers.drop_last(), depth_of);
        sorted.insert(slot(sorted, depth_of(layers.last()), depth_of) as int, layers.last())
    }
}

/// The paths that a list of lists holds.
pub open spec fn path_views(paths: Seq<Vec<LayerNodeIdentifier>>) -> Seq<Path> {
    paths.map_values(|path: Vec<LayerNodeIdentifier>| path@)
}

/// Of two paths one comes before the other.
pub proof fn lemma_lex_total(a: Path, b: Path)
    ensures
        lex_le(a, b) || lex_le(b, a),
    decreases a.len(),
{
    if a.len() > 0 && b.len() > 0 && a[0].0 == b[0].0 {
        lemma_lex_total(a.drop_first(), b.drop_first());
    }
}

/// The order of paths is transitive.
pub proof fn lemma_lex_transitive(a: Path, b: Path, c: Path)
    requires
        lex_le(a, b),
        lex_le(b, c),
    ensures
        lex_le(a, c),
    decreases a.len(),
{
    if a.len() > 0 && b.len() > 0 && c.len() > 0 && a[0].0 == b[0].0 && b[0].0 == c[0].0 {
        lemma_lex_transitive(a.drop_first(), b.drop_first(), c.drop_first());
    }
}

/// A path that stands between a path and one that starts with it starts with
/// it too.
pub proof fn lemma_prefix_between(p: Path, x: Path, y: Path)
    requires
        lex_le(p, x),
        lex_le(x, y),
        has_prefix(y, p),
    ensures
        has_prefix(x, p),
    decreases p.len(),
{
    if p.len() == 0 {
        assert(x.take(0) =~= p);
    } else {
        assert(y.take(p.len() as int)[0] == p[0]);
        assert(y[0] == p[0]);
        assert(x.len() > 0);
        assert(x[0] == p[0]);
        let p_tail = p.drop_first();
        let x_tail = x.drop_first();
        let y_tail = y.drop_first();
        assert(y_tail.take(p_tail.len() as int) =~= y.take(p.len() as int).drop_first());
        lemma_prefix_between(p_tail, x_tail, y_tail);
        assert(x.take(p.len() as int) =~= seq![x[0]] + x_tail.take(p_tail.len() as int));
        assert(p =~= seq![p[0]] + p_tail);
    }
}

/// Whether `a` comes before `b` or is `b`.
pub fn path_le(a: &Vec<LayerNodeIdentifier>, b: &Vec<LayerNodeIdentifier>) -> (le: bool)
    ensures
        le == lex_le(a@, b@),
{
    let mut i: usize = 0;
    proof {
        assert(a@.skip(0) =~= a@);
        assert(b@.skip(0) =~= b@);
    }
    while i < a.len() && i < b.len()
        invariant
            0 <= i <= a.len(),
            i <= b.len(),
            lex_le(a@, b@) == lex_le(a@.skip(i as int), b@.skip(i as int)),
        decreases a.len() - i,
    {
        proof {
            assert(a@.skip(i as int).drop_first() =~= a@.skip(i + 1));
            assert(b@.skip(i as int).drop_first() =~= b@.skip(i + 1));
        }
        if a[i].0 != b[i].0 {
            return a[i].0 < b[i].0;
        }
        i += 1;
    }
    i == a.len()
}

/// Whether `x` starts with all of `p`.
pub fn path_starts_with(x: &Vec<LayerNodeIdentifier>, p: &Vec<LayerNodeIdentifier>) -> (starts:
    bool)
    ensures
        starts == has_prefix(x@, p@),
{
    if p.len() > x.len() {
        return false;
    }
    let mut i: usize = 0;
    while i < p.len()
        invariant
            0 <= i <= p.len(),
            p.len() <= x.len(),
            forall|j: int| 0 <= j < i ==> x@[j] == p@[j],
        decreases p.len() - i,
    {
        if x[i] != p[i] {
            proof {
                assert(x@.take(p.len() as int)[i as int] == x@[i as int]);
            }
            return false;
        }
        i += 1;
    }
    proof {
        assert(x@.take(p.len() as int) =~= p@);
    }
    true
}

/// The number of leading layers that `a` and `b` share.
pub fn shared_len(a: &Vec<LayerNodeIdentifier>, b: &Vec<LayerNodeIdentifier>) -> (shared: usize)
    ensures
        shared == common_len(a@, b@),
        shared <= a.len(),
{
    let mut i: usize = 0;
    proof {
        assert(a@.skip(0) =~= a@);
        assert(b@.skip(0) =~= b@);
    }
    while i < a.len() && i < b.len() && a[i] == b[i]
        invariant
            0 <= i <= a.len(),
            i <= b.len(),
            common_len(a@, b@) == i + common_len(a@.skip(i as int), b@.skip(i as int)),
        decreases a.len() - i,
    {
        proof {
            assert(a@.skip(i as int).drop_first() =~= a@.skip(i + 1));
            assert(b@.skip(i as int).drop_first() =~= b@.skip(i + 1));
        }
        i += 1;
    }
    i
}

/// A copy of `path`.
pub fn copy_path(path: &Vec<LayerNodeIdentifier>) -> (copy: Vec<LayerNodeIdentifier>)
    ensures
        copy@ == path@,
{
    let mut copy: Vec<LayerNodeIdentifier> = Vec::new();
    let mut i: usize = 0;
    while i < path.len()
        invariant
            0 <= i <= path.len(),
            copy@ == path@.take(i as int),
        decreases path.len() - i,
    {
        copy.push(path[i]);
        proof {
            assert(path@.take(i + 1) =~= path@.take(i as int).push(path@[i as int]));
        }
        i += 1;
    }
    proof {
        assert(path@.take(path.len() as int) =~= path@);
    }
    copy
}

impl DocumentMetadata {
    /// The way from the root down to `layer`, both ends included.
    pub open spec fn spec_path(&self, layer: LayerNodeIdentifier) -> Path {
        self.spec_ancestors(layer).reverse()
    }

    /// The number of layers on the way from `layer` up to the root, both ends
    /// included.
    pub open spec fn spec_depth(&self) -> spec_fn(LayerNodeIdentifier) -> nat {
        |layer: LayerNodeIdentifier| self.spec_ancestors(layer).len()
    }

    /// The path that stands for `layer` where a shared ancestor is looked for:
    /// the way from the root to the layer, without the layer itself where it
    /// is a folder that may not count as its own ancestor.
    pub open spec fn spec_candidate_path(
        &self,
        layer: LayerNodeIdentifier,
        include_self: bool,
    ) -> Path {
        if !include_self && self.spec_folders().contains(layer) {
            self.spec_path(layer).drop_last()
        } else {
            self.spec_path(layer)
        }
    }

    /// The way from the root down to `layer`.
    pub fn path_to(&self, layer: LayerNodeIdentifier) -> (path: Vec<LayerNodeIdentifier>)
        requires
            self.wf(),
        ensures
            path@ == self.spec_path(layer),
    {
        let up = layer.ancestors(self).collect();
        let mut path: Vec<LayerNodeIdentifier> = Vec::new();
        let mut i: usize = up.len();
        while i > 0
            invariant
                0 <= i <= up.len(),
                path.len() == up.len() - i,
                forall|j: int| 0 <= j < path.len() ==> path@[j] == up@[up.len() - 1 - j],
            decreases i,
        {
            i -= 1;
            path.push(up[i]);
        }
        proof {
            assert(path@ =~= up@.reverse());
        }
        path
    }

    /// The layers of `layers` that are not below another one of them: the ways
    /// from the root to them, in the order of a dictionary, without every way
    /// that leads through the one kept before it.
    ///
    /// That these are the ways which lead through no other one of the list,
    /// each of them once, is `lemma_dedup_paths`.
    pub fn shallowest_unique_layers(&self, layers: Vec<LayerNodeIdentifier>) -> (shallowest: Vec<
        Vec<LayerNodeIdentifier>,
    >)
        requires
            self.wf(),
        ensures
            exists|sorted: Seq<Path>|
                {
                    &&& sorted_paths(sorted)
                    &&& sorted.to_multiset() == layers@.map_values(
                        |layer: LayerNodeIdentifier| self.spec_path(layer),
                    ).to_multiset()
                    &&& #[trigger] dedup_paths(sorted) == path_views(shallowest@)
                },
    {
        broadcast use vstd::seq_lib::group_to_multiset_ensures;

        let ghost paths = layers@.map_values(|layer: LayerNodeIdentifier| self.spec_path(layer));
        let mut sorted: Vec<Vec<LayerNodeIdentifier>> = Vec::new();
        let mut i: usize = 0;
        proof {
            assert(paths.take(0) =~= path_views(sorted@));
        }
        while i < layers.len()
            invariant
                0 <= i <= layers.len(),
                self.wf(),
                paths == layers@.map_values(|layer: LayerNodeIdentifier| self.spec_path(layer)),
                sorted_paths(path_views(sorted@)),
                path_views(sorted@).to_multiset() == paths.take(i as int).to_multiset(),
            decreases layers.len() - i,
        {
            let path = self.path_to(layers[i]);
            let ghost before = path_views(sorted@);
            let mut slot: usize = 0;
            while slot < sorted.len() && path_le(&sorted[slot], &path)
                invariant
                    0 <= slot <= sorted.len(),
                    before == path_views(sorted@),
                    forall|j: int| 0 <= j < slot ==> lex_le(#[trigger] before[j], path@),
                decreases sorted.len() - slot,
            {
                slot += 1;
            }
            sorted.insert(slot, path);
            proof {
                let after = path_views(sorted@);
                assert(after =~= before.insert(slot as int, path@));
                assert forall|a: int, b: int| 0 <= a < b < after.len() implies lex_le(
                    #[trigger] after[a],
                    #[trigger] after[b],
                ) by {
                    if b == slot {
                        assert(after[a] == before[a]);
                    } else if a == slot {
                        assert(after[b] == before[b - 1]);
                        lemma_lex_total(before[slot as int], path@);
                        if b - 1 > slot {
                            lemma_lex_transitive(path@, before[slot as int], before[b - 1]);
                        }
                    } else {
                        let a0 = if a < slot {
                            a
                        } else {
                            a - 1
                        };
                        let b0 = if b < slot {
                            b
                        } else {
                            b - 1
                        };
                        assert(after[a] == before[a0]);
                        assert(after[b] == before[b0]);
                    }
                }
                assert(paths[i as int] == path@);
                assert(paths.take(i + 1) =~= paths.take(i as int).push(path@));
                vstd::seq_lib::to_multiset_insert(before, slot as int, path@);
                vstd::seq_lib::to_multiset_build(paths.take(i as int), path@);
            }
            i += 1;
        }
        proof {
            assert(paths.take(layers.len() as int) =~= paths);
        }
        let ghost ordered = path_views(sorted@);
        let mut shallowest: Vec<Vec<LayerNodeIdentifier>> = Vec::new();
        let mut k: usize = 0;
        proof {
            assert(ordered.take(0) =~= Seq::<Path>::empty());
            assert(path_views(shallowest@) =~= Seq::<Path>::empty());
        }
        while k < sorted.len()
            invariant
                0 <= k <= sorted.len(),
                ordered == path_views(sorted@),
                path_views(shallowest@) == dedup_paths(ordered.take(k as int)),
            decreases sorted.len() - k,
        {
            let ghost kept = path_views(shallowest@);
            proof {
                assert(ordered.take(k + 1).drop_last() =~= ordered.take(k as int));
                assert(ordered.take(k + 1).last() == sorted@[k as int]@);
            }
            let duplicate = shallowest.len() > 0 && path_starts_with(
                &sorted[k],
                &shallowest[shallowest.len() - 1],
            );
            if !duplicate {
                let path = copy_path(&sorted[k]);
                shallowest.push(path);
                proof {
                    assert(path_views(shallowest@) =~= kept.push(sorted@[k as int]@));
                }
            }
            k += 1;
        }
        proof {
            assert(ordered.take(sorted.len() as int) =~= ordered);
            assert(dedup_paths(ordered) == path_views(shallowest@));
        }
        shallowest
    }

    /// The deepest layer that stands on the way from the root to every layer
    /// of `layers`; with `include_self` a layer stands on its own way, and
    /// without it a folder does not. `None` where `layers` is empty or the
    /// layers share no ancestor.
    pub fn deepest_common_ancestor(
        &self,
        layers: Vec<LayerNodeIdentifier>,
        include_self: bool,
    ) -> (ancestor: Option<LayerNodeIdentifier>)
        requires
            self.wf(),
        ensures
            ancestor == deepest_common(
                layers@.map_values(
                    |layer: LayerNodeIdentifier| self.spec_candidate_path(layer, include_self),
                ),
            ),
    {
        let ghost candidates = layers@.map_values(
            |layer: LayerNodeIdentifier| self.spec_candidate_path(layer, include_self),
        );
        if layers.len() == 0 {
            return None;
        }
        let mut common = self.candidate_path(layers[0], include_self);
        let mut i: usize = 1;
        proof {
            assert(candidates.take(1)[0] == common@);
        }
        while i < layers.len()
            invariant
                1 <= i <= layers.len(),
                self.wf(),
                candidates == layers@.map_values(
                    |layer: LayerNodeIdentifier| self.spec_candidate_path(layer, include_self),
                ),
                common@ == common_of(candidates.take(i as int)),
            decreases layers.len() - i,
        {
            let next = self.candidate_path(layers[i], include_self);
            let shared = shared_len(&common, &next);
            proof {
                assert(candidates.take(i + 1).drop_last() =~= candidates.take(i as int));
                assert(candidates.take(i + 1).last() == next@);
            }
            common.truncate(shared);
            i += 1;
        }
        proof {
            assert(candidates.take(layers.len() as int) =~= candidates);
        }
        if common.len() == 0 {
            None
        } else {
            Some(common[common.len() - 1])
        }
    }

    /// The path that stands for `layer` where a shared ancestor is looked for.
    pub fn candidate_path(&self, layer: LayerNodeIdentifier, include_self: bool) -> (path: Vec<
        LayerNodeIdentifier,
    >)
        requires
            self.wf(),
        ensures
            path@ == self.spec_candidate_path(layer, include_self),
    {
        let mut path = self.path_to(layer);
        if !include_self && self.is_folder(layer) {
            proof {
                crate::walk::lemma_chain_unfold(self@, self.listing(), crate::walk::Axis::Ancestors, layer);
            }
            path.pop();
        }
        path
    }

    /// The folders among `layers`, the deepest first; folders of one depth keep
    /// their order.
    pub fn folders_sorted_by_most_nested(&self, layers: Vec<LayerNodeIdentifier>) -> (folders: Vec<
        LayerNodeIdentifier,
    >)
        requires
            self.wf(),
        ensures
            folders@ == most_nested_first(
                layers@.filter(self.layer_filter(false, false, true)),
                self.spec_depth(),
            ),
    {
        let unsorted = self.folders(layers);
        let ghost depth_of = self.spec_depth();
        let mut folders: Vec<LayerNodeIdentifier> = Vec::new();
        let mut depths: Vec<usize> = Vec::new();
        let mut i: usize = 0;
        proof {
            assert(unsorted@.take(0) =~= Seq::<LayerNodeIdentifier>::empty());
        }
        while i < unsorted.len()
            invariant
                0 <= i <= unsorted.len(),
                self.wf(),
                depth_of == self.spec_depth(),
                folders@ == most_nested_first(unsorted@.take(i as int), depth_of),
                depths.len() == folders.len(),
                forall|j: int| 0 <= j < depths.len() ==> depths@[j] == depth_of(#[trigger] folders@[j]),
            decreases unsorted.len() - i,
        {
            let layer = unsorted[i];
            let depth = layer.ancestors(self).collect().len();
            let mut place: usize = 0;
            proof {
                assert(folders@.skip(0) =~= folders@);
            }
            while place < folders.len() && depths[place] >= depth
                invariant
                    0 <= place <= folders.len(),
                    depths.len() == folders.len(),
                    forall|j: int|
                        0 <= j < depths.len() ==> depths@[j] == depth_of(#[trigger] folders@[j]),
                    slot(folders@, depth as nat, depth_of) == place + slot(
                        folders@.skip(place as int),
                        depth as nat,
                        depth_of,
                    ),
                decreases folders.len() - place,
            {
                proof {
                    assert(folders@.skip(place as int).drop_first() =~= folders@.skip(place + 1));
                }
                place += 1;
            }
            proof {
                assert(unsorted@.take(i + 1).drop_last() =~= unsorted@.take(i as int));
                assert(unsorted@.take(i + 1).last() == layer);
            }
            folders.insert(place, layer);
            depths.insert(place, depth);
            i += 1;
        }
        proof {
            assert(unsorted@.take(unsorted.len() as int) =~= unsorted@);
        }
        folders
    }

    /// The artboard that was found first when the tree was built, or the root
    /// where the document has no artboard.
    pub fn active_artboard(&self) -> (layer: LayerNodeIdentifier)
        ensures
            layer == (if self.spec_artboard_list().len() == 0 {
                root_id()
            } else {
                LayerNodeIdentifier(self.spec_artboard_list()[0])
            }),
            self.spec_artboard_list().len() > 0 ==> self.spec_artboards().contains(layer),
            self.spec_artboard_list().len() == 0 ==> self.spec_artboards() == Set::<
                LayerNodeIdentifier,
            >::empty(),
    {
        let artboards = self.artboard_list();
        if artboards.len() > 0 {
            LayerNodeIdentifier(artboards[0])
        } else {
            proof {
                assert(self.spec_artboards() =~= Set::<LayerNodeIdentifier>::empty());
            }
            LayerNodeIdentifier(ROOT_NODE)
        }
    }
}

} // verus!
