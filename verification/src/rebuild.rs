//! Building the layer tree anew from a snapshot of the node graph.

use vstd::prelude::*;
use vstd::set_lib::lemma_len_subset;
use crate::identifier::{LayerNodeIdentifier, NodeId, NodeRelations, ROOT_NODE};
use crate::metadata::DocumentMetadata;
use crate::graph::{NodeNetwork, is_artboard, is_folder};
use crate::model::{root_id};
use crate::layers::lemma_filter_push;

verus! {

broadcast use vstd::std_specs::hash::group_hash_axioms;

impl NodeNetwork {
    /// The test for a key with a node behind it.
    pub open spec fn spec_has_node(&self) -> spec_fn(NodeId) -> bool {
        |node: NodeId| self.nodes@.contains_key(node)
    }

    /// The layer at the top of the document: the nearest layer upstream of the
    /// first input of the first output's node.
    pub open spec fn spec_top_layer(&self) -> Option<NodeId> {
        if self.outputs@.len() > 0 && self.nodes@.contains_key(self.outputs@[0]) {
            self.spec_first_child_layer(self.outputs@[0])
        } else {
            None
        }
    }

    /// The layers from `start` on, each wired to the second input of the one
    /// before it; at most `steps` of them.
    pub open spec fn spec_layers_below(&self, start: Option<NodeId>, steps: nat) -> Seq<NodeId>
        decreases steps,
    {
        match start {
            None => Seq::empty(),
            Some(id) => if steps == 0 {
                Seq::empty()
            } else {
                seq![id] + self.spec_layers_below(self.spec_sibling_below(id), (steps - 1) as nat)
            },
        }
    }

    /// The layer that the graph puts first below `layer`.
    pub open spec fn spec_head(&self, layer: LayerNodeIdentifier) -> Option<NodeId> {
        if layer == root_id() {
            self.spec_top_layer()
        } else {
            self.spec_first_child_layer(layer.0)
        }
    }

    /// The layers that the graph puts right below `layer`, in their order:
    /// the first one and the layers below it, as many as the graph has nodes
    /// at most.
    pub open spec fn spec_offspring(&self, layer: LayerNodeIdentifier) -> Seq<NodeId> {
        self.spec_layers_below(self.spec_head(layer), self.nodes@.len())
    }

    /// The layer at the top of the document.
    pub fn top_layer(&self) -> (layer: Option<NodeId>)
        ensures
            layer == self.spec_top_layer(),
            layer matches Some(top) ==> self.nodes@.contains_key(top) && self.nodes@[top].is_layer,
    {
        if self.outputs.len() > 0 && self.has_node(self.outputs[0]) {
            self.first_child_layer(self.outputs[0])
        } else {
            None
        }
    }

    /// The keys of `keys` with a node behind them, in their order.
    pub fn retain_nodes(&self, keys: &Vec<NodeId>) -> (kept: Vec<NodeId>)
        ensures
            kept@ == keys@.filter(self.spec_has_node()),
    {
        let ghost keep = self.spec_has_node();
        let mut kept: Vec<NodeId> = Vec::new();
        let mut i: usize = 0;
        proof {
            reveal(Seq::filter);
            assert(keys@.take(0) =~= Seq::<NodeId>::empty());
        }
        while i < keys.len()
            invariant
                0 <= i <= keys.len(),
                keep == self.spec_has_node(),
                kept@ == keys@.take(i as int).filter(keep),
            decreases keys.len() - i,
        {
            let key = keys[i];
            proof {
                lemma_filter_push(keys@.take(i as int), key, keep);
                assert(keys@.take(i + 1) =~= keys@.take(i as int).push(key));
            }
            if self.has_node(key) {
                kept.push(key);
            }
            i += 1;
        }
        proof {
            assert(keys@.take(keys.len() as int) =~= keys@);
        }
        kept
    }
}

/// The child list of every layer of a tree.
pub type ChildLists = Map<LayerNodeIdentifier, Seq<LayerNodeIdentifier>>;

/// The layers whose children are still to be put into the tree, each with the
/// first layer that the graph puts below it.
pub type Waiting = Seq<(NodeId, LayerNodeIdentifier)>;

impl NodeNetwork {
    /// Meeting the layer of node `id` on the way through the layers below
    /// `parent`: a layer that is in the tree already is passed by; a new one
    /// becomes the last child of `parent`, and waits for its own children if
    /// the graph puts a layer below it.
    pub open spec fn spec_visit(
        &self,
        lists: ChildLists,
        waiting: Waiting,
        parent: LayerNodeIdentifier,
        id: NodeId,
    ) -> (ChildLists, Waiting) {
        let layer = LayerNodeIdentifier(id);
        if lists.contains_key(layer) {
            (lists, waiting)
        } else {
            (
                lists.insert(parent, lists[parent].push(layer)).insert(layer, Seq::empty()),
                match self.spec_first_child_layer(id) {
                    Some(child) => waiting.push((child, layer)),
                    None => waiting,
                },
            )
        }
    }

    /// Going through the layers below `parent`, from `current` on, each wired
    /// to the second input of the one before it; `steps` of them at most.
    pub open spec fn spec_walk_below(
        &self,
        lists: ChildLists,
        waiting: Waiting,
        parent: LayerNodeIdentifier,
        current: Option<NodeId>,
        steps: nat,
    ) -> (ChildLists, Waiting)
        decreases steps,
    {
        match current {
            None => (lists, waiting),
            Some(id) => if steps == 0 {
                (lists, waiting)
            } else {
                let met = self.spec_visit(lists, waiting, parent, id);
                self.spec_walk_below(
                    met.0,
                    met.1,
                    parent,
                    self.spec_sibling_below(id),
                    (steps - 1) as nat,
                )
            },
        }
    }

    /// Serving the layers that wait, the one that came last first, until none
    /// waits any more; `rounds` of them at most.
    pub open spec fn spec_serve(&self, lists: ChildLists, waiting: Waiting, rounds: nat) -> ChildLists
        decreases rounds,
    {
        if waiting.len() == 0 || rounds == 0 {
            lists
        } else {
            let served = self.spec_walk_below(
                lists,
                waiting.drop_last(),
                waiting.last().1,
                Some(waiting.last().0),
                self.nodes@.len(),
            );
            self.spec_serve(served.0, served.1, (rounds - 1) as nat)
        }
    }

    /// The child lists of the tree of layers that the graph describes.
    pub open spec fn spec_layer_tree(&self) -> ChildLists {
        let bare = Map::<LayerNodeIdentifier, Seq<LayerNodeIdentifier>>::empty().insert(
            root_id(),
            Seq::empty(),
        );
        match self.spec_top_layer() {
            None => bare,
            Some(top) => self.spec_serve(bare, seq![(top, root_id())], self.nodes@.len() + 1),
        }
    }
}

/// `at` says where in `chain` each layer of `children` stands, and the places
/// go up.
pub open spec fn embeds(children: Seq<LayerNodeIdentifier>, chain: Seq<NodeId>, at: Seq<int>) -> bool {
    &&& at.len() == children.len()
    &&& forall|j: int|
        0 <= j < at.len() ==> 0 <= #[trigger] at[j] < chain.len() && children[j].0 == chain[at[j]]
    &&& forall|i: int, j: int| 0 <= i < j < at.len() ==> #[trigger] at[i] < #[trigger] at[j]
}

/// The layers of `children` stand in `chain`, in the same order.
pub open spec fn subsequence_of(children: Seq<LayerNodeIdentifier>, chain: Seq<NodeId>) -> bool {
    exists|at: Seq<int>| embeds(children, chain, at)
}

/// A layer with `parent` waits on the stack.
pub open spec fn on_stack(stack: Seq<(NodeId, LayerNodeIdentifier)>, parent: LayerNodeIdentifier) -> bool {
    exists|j: int| 0 <= j < stack.len() && (#[trigger] stack[j]).1 == parent
}

impl DocumentMetadata {
    /// Every layer that the graph puts right below `parent` is in the tree,
    /// and the children of `parent` are some of them, in the order of the
    /// graph.
    pub open spec fn settled(&self, graph: &NodeNetwork, parent: LayerNodeIdentifier) -> bool {
        &&& forall|k: int|
            0 <= k < graph.spec_offspring(parent).len() ==> self@.contains_key(
                LayerNodeIdentifier(#[trigger] graph.spec_offspring(parent)[k]),
            )
        &&& subsequence_of(self.spec_children(parent), graph.spec_offspring(parent))
    }

    /// The tree has the layers of `lists`, each with the children that `lists`
    /// gives it.
    pub open spec fn has_child_lists(&self, lists: ChildLists) -> bool {
        &&& forall|x: LayerNodeIdentifier| #[trigger] self@.contains_key(x) <==> lists.contains_key(x)
        &&& forall|x: LayerNodeIdentifier|
            self@.contains_key(x) ==> #[trigger] self.spec_children(x) == lists[x]
    }

    /// What holds of the layers that wait on the stack and of the layers whose
    /// children are in place, while the tree is built.
    pub open spec fn building(
        &self,
        graph: &NodeNetwork,
        stack: Seq<(NodeId, LayerNodeIdentifier)>,
        done: Set<LayerNodeIdentifier>,
    ) -> bool {
        &&& forall|p: LayerNodeIdentifier|
            #[trigger] done.contains(p) ==> self@.contains_key(p) && self.settled(graph, p)
        &&& forall|j: int|
            0 <= j < stack.len() ==> {
                &&& Some((#[trigger] stack[j]).0) == graph.spec_head(stack[j].1)
                &&& self.spec_children(stack[j].1) == Seq::<LayerNodeIdentifier>::empty()
                &&& !done.contains(stack[j].1)
            }
        &&& forall|i: int, j: int|
            0 <= i < j < stack.len() ==> (#[trigger] stack[i]).1 != (#[trigger] stack[j]).1
    }

    /// The test for the key of a layer of the tree.
    pub open spec fn spec_has_layer(&self) -> spec_fn(NodeId) -> bool {
        |node: NodeId| self@.contains_key(LayerNodeIdentifier(node))
    }

    /// The keys of `keys` that are layers of the tree, in their order.
    pub fn retain_layers(&self, keys: &Vec<NodeId>) -> (kept: Vec<NodeId>)
        ensures
            kept@ == keys@.filter(self.spec_has_layer()),
    {
        let ghost keep = self.spec_has_layer();
        let mut kept: Vec<NodeId> = Vec::new();
        let mut i: usize = 0;
        proof {
            reveal(Seq::filter);
            assert(keys@.take(0) =~= Seq::<NodeId>::empty());
        }
        while i < keys.len()
            invariant
                0 <= i <= keys.len(),
                keep == self.spec_has_layer(),
                kept@ == keys@.take(i as int).filter(keep),
            decreases keys.len() - i,
        {
            let key = keys[i];
            proof {
                lemma_filter_push(keys@.take(i as int), key, keep);
                assert(keys@.take(i + 1) =~= keys@.take(i as int).push(key));
            }
            if self.layer_exists(LayerNodeIdentifier(key)) {
                kept.push(key);
            }
            i += 1;
        }
        proof {
            assert(keys@.take(keys.len() as int) =~= keys@);
        }
        kept
    }

    /// Cuts the selection and the cached transforms down to the nodes that the
    /// graph has, and the cached click targets to the layers of the tree.
    fn prune(&mut self, graph: &NodeNetwork)
        ensures
            final(self).same_tree(old(self)),
            final(self).spec_artboards() == old(self).spec_artboards(),
            final(self).spec_artboard_list() == old(self).spec_artboard_list(),
            final(self).spec_folders() == old(self).spec_folders(),
            final(self).spec_selected_nodes() == old(self).spec_selected_nodes().filter(
                graph.spec_has_node(),
            ),
            forall|node: NodeId|
                #[trigger] final(self).spec_upstream_transforms().contains(node) <==> old(self).spec_upstream_transforms().contains(node) && graph.nodes@.contains_key(node),
            forall|x: LayerNodeIdentifier|
                #[trigger] final(self).spec_click_targets().contains(x) <==> old(self).spec_click_targets().contains(x) && final(self)@.contains_key(x),
    {
        let selected = graph.retain_nodes(self.selection());
        self.replace_selection(selected);
        let cached_list = self.upstream_transform_list();
        let ghost cached_before = cached_list@;
        let cached = graph.retain_nodes(cached_list);
        proof {
            broadcast use vstd::seq_lib::group_filter_ensures;

            assert forall|node: NodeId| #[trigger]
                cached@.to_set().contains(node) <==> cached_before.to_set().contains(node)
                    && graph.nodes@.contains_key(node) by {
                if cached@.contains(node) {
                    cached_before.lemma_filter_contains_rev(graph.spec_has_node(), node);
                    let j = choose|j: int| 0 <= j < cached@.len() && cached@[j] == node;
                    assert(graph.spec_has_node()(cached@[j]));
                }
                if cached_before.contains(node) && graph.nodes@.contains_key(node) {
                    let j = choose|j: int| 0 <= j < cached_before.len() && cached_before[j] == node;
                    assert(graph.spec_has_node()(cached_before[j]));
                }
            }
        }
        self.replace_upstream_transforms(cached);
        let target_list = self.click_target_list();
        let ghost targets_before = target_list@;
        let targets = self.retain_layers(target_list);
        proof {
            broadcast use vstd::seq_lib::group_filter_ensures;

            assert forall|x: LayerNodeIdentifier| #[trigger]
                targets@.contains(x.0) <==> targets_before.contains(x.0) && self@.contains_key(
                    x,
                ) by {
                if targets@.contains(x.0) {
                    targets_before.lemma_filter_contains_rev(self.spec_has_layer(), x.0);
                    let j = choose|j: int| 0 <= j < targets@.len() && targets@[j] == x.0;
                    assert(self.spec_has_layer()(targets@[j]));
                }
                if targets_before.contains(x.0) && self@.contains_key(x) {
                    let j = choose|j: int|
                        0 <= j < targets_before.len() && targets_before[j] == x.0;
                    assert(self.spec_has_layer()(targets_before[j]));
                }
            }
        }
        self.replace_click_targets(targets);
    }

    /// Builds the tree anew from `graph`.
    ///
    /// The tree is emptied down to the root. From the layer at the top of the
    /// document on, every layer that is met and is not in the tree yet becomes
    /// the last child of the layer that led to it; the layers below it are
    /// looked at later, and the walk goes on with the layer that its second
    /// input is wired to. Every layer that is put into the tree is tagged as an
    /// artboard and as a folder as the graph says. At the end the selection and
    /// the caches are cut down to the nodes and layers that are still there,
    /// also where the document has no layer at its top and the root stays
    /// alone.
    pub fn load_structure(&mut self, graph: &NodeNetwork)
        ensures
            final(self).wf(),
            forall|x: LayerNodeIdentifier|
                #[trigger] final(self)@.contains_key(x) && x != root_id()
                    ==> graph.nodes@.contains_key(x.0) && graph.nodes@[x.0].is_layer,
            forall|x: LayerNodeIdentifier|
                #[trigger] final(self).spec_artboards().contains(x) <==> final(self)@.contains_key(x)
                    && x != root_id() && graph.spec_is_artboard(x),
            forall|x: LayerNodeIdentifier|
                #[trigger] final(self).spec_folders().contains(x) <==> final(self)@.contains_key(x)
                    && x != root_id() && graph.spec_is_folder(x),
            final(self).has_child_lists(graph.spec_layer_tree()),
            forall|parent: LayerNodeIdentifier|
                #[trigger] final(self)@.contains_key(parent) ==> final(self).settled(graph, parent),
            graph.spec_top_layer() is None ==> final(self)@ == Map::<
                LayerNodeIdentifier,
                NodeRelations,
            >::empty().insert(root_id(), NodeRelations::unlinked()),
            graph.spec_top_layer() matches Some(top) ==> (top != ROOT_NODE ==> final(self)@.contains_key(LayerNodeIdentifier(top))),
            final(self).spec_selected_nodes() == old(self).spec_selected_nodes().filter(
                graph.spec_has_node(),
            ),
            forall|node: NodeId|
                #[trigger] final(self).spec_upstream_transforms().contains(node) <==> old(self).spec_upstream_transforms().contains(node) && graph.nodes@.contains_key(node),
            forall|x: LayerNodeIdentifier|
                #[trigger] final(self).spec_click_targets().contains(x) <==> old(self).spec_click_targets().contains(x) && final(self)@.contains_key(x),
    {
        self.reset_tree();
        let mut artboards: Vec<NodeId> = Vec::new();
        let mut folders: Vec<NodeId> = Vec::new();
        let top = graph.top_layer();
        if top.is_none() {
            self.replace_tags(artboards, folders);
            self.prune(graph);
            proof {
                assert(self.spec_children(root_id()) =~= Seq::<LayerNodeIdentifier>::empty());
                assert(self.has_child_lists(graph.spec_layer_tree()));
                assert(graph.spec_offspring(root_id()) =~= Seq::<NodeId>::empty());
                assert(embeds(
                    self.spec_children(root_id()),
                    graph.spec_offspring(root_id()),
                    Seq::<int>::empty(),
                ));
            }
            return ;
        }
        let ghost mut visited: Set<NodeId> = Set::empty();
        let ghost mut done: Set<LayerNodeIdentifier> = Set::empty();
        let ghost mut lists: ChildLists = Map::<
            LayerNodeIdentifier,
            Seq<LayerNodeIdentifier>,
        >::empty().insert(root_id(), Seq::empty());
        let ghost mut served: nat = 0;
        let ghost target = graph.spec_layer_tree();
        let mut stack: Vec<(NodeId, LayerNodeIdentifier)> = Vec::new();
        stack.push((top.unwrap(), LayerNodeIdentifier(ROOT_NODE)));
        let node_count = graph.nodes.len();
        proof {
            assert(set![top.unwrap()].subset_of(graph.nodes@.dom()));
            lemma_len_subset(set![top.unwrap()], graph.nodes@.dom());
            assert(self.spec_children(root_id()) =~= Seq::<LayerNodeIdentifier>::empty());
            assert(stack@[0].1 == root_id());
            assert(stack@ =~= seq![(top.unwrap(), root_id())]);
        }
        while stack.len() > 0
            invariant
                self.wf(),
                self.same_tags(old(self)),
                node_count > 0,
                node_count == graph.nodes@.len(),
                graph.nodes@.dom().finite(),
                visited.finite(),
                visited.subset_of(graph.nodes@.dom()),
                !visited.contains(ROOT_NODE),
                forall|x: LayerNodeIdentifier|
                    #[trigger] self@.contains_key(x) <==> x == root_id() || visited.contains(x.0),
                forall|k: NodeId| #[trigger] visited.contains(k) ==> graph.nodes@[k].is_layer,
                forall|j: int|
                    0 <= j < stack.len() ==> self@.contains_key((#[trigger] stack@[j]).1)
                        && graph.nodes@.contains_key(stack@[j].0)
                        && graph.nodes@[stack@[j].0].is_layer,
                forall|k: NodeId|
                    #[trigger] artboards@.contains(k) <==> visited.contains(k)
                        && graph.spec_is_artboard(LayerNodeIdentifier(k)),
                forall|k: NodeId|
                    #[trigger] folders@.contains(k) <==> visited.contains(k) && graph.spec_is_folder(
                        LayerNodeIdentifier(k),
                    ),
                top matches Some(first) && (first == ROOT_NODE || visited.contains(first) || (
                stack.len() > 0 && stack@[0].0 == first)),
                self.building(graph, stack@, done),
                forall|p: LayerNodeIdentifier|
                    #[trigger] self@.contains_key(p) ==> done.contains(p) || on_stack(stack@, p),
                self.has_child_lists(lists),
                target == graph.spec_layer_tree(),
                served + stack.len() <= 1 + visited.len(),
                graph.spec_serve(lists, stack@, (graph.nodes@.len() + 1 - served) as nat) == target,
            decreases graph.nodes@.len() - visited.len() + stack.len(),
        {
            proof {
                lemma_len_subset(visited, graph.nodes@.dom());
            }
            let ghost budget = graph.nodes@.len() - visited.len() + stack.len() - 1;
            let ghost waiting = stack@;
            let (start, parent) = stack.pop().unwrap();
            let ghost goal = graph.spec_walk_below(
                lists,
                waiting.drop_last(),
                parent,
                Some(start),
                graph.nodes@.len(),
            );
            proof {
                assert(stack@ =~= waiting.drop_last());
                assert(waiting.last() == (start, parent));
                served = served + 1;
            }
            let ghost chain = graph.spec_offspring(parent);
            let ghost mut at: Seq<int> = Seq::empty();
            let ghost mut place: int = 0;
            let mut current = Some(start);
            let mut steps = node_count;
            proof {
                assert(waiting[waiting.len() - 1] == (start, parent));
                assert(chain.skip(0) =~= chain);
                assert forall|p: LayerNodeIdentifier| #[trigger]
                    self@.contains_key(p) implies done.contains(p) || on_stack(stack@, p) || p
                    == parent by {
                    if on_stack(waiting, p) {
                        let j = choose|j: int| 0 <= j < waiting.len() && (#[trigger] waiting[j]).1 == p;
                        if j < stack@.len() {
                            assert(stack@[j].1 == p);
                        }
                    }
                }
            }
            while steps > 0 && current.is_some()
                invariant
                    self.wf(),
                    self.same_tags(old(self)),
                    node_count == graph.nodes@.len(),
                    node_count > 0,
                    graph.nodes@.dom().finite(),
                    visited.finite(),
                    visited.subset_of(graph.nodes@.dom()),
                    !visited.contains(ROOT_NODE),
                    forall|x: LayerNodeIdentifier|
                        #[trigger] self@.contains_key(x) <==> x == root_id() || visited.contains(
                            x.0,
                        ),
                    forall|k: NodeId| #[trigger] visited.contains(k) ==> graph.nodes@[k].is_layer,
                    forall|j: int|
                        0 <= j < stack.len() ==> self@.contains_key((#[trigger] stack@[j]).1)
                            && graph.nodes@.contains_key(stack@[j].0)
                            && graph.nodes@[stack@[j].0].is_layer,
                    forall|k: NodeId|
                        #[trigger] artboards@.contains(k) <==> visited.contains(k)
                            && graph.spec_is_artboard(LayerNodeIdentifier(k)),
                    forall|k: NodeId|
                        #[trigger] folders@.contains(k) <==> visited.contains(k)
                            && graph.spec_is_folder(LayerNodeIdentifier(k)),
                    self@.contains_key(parent),
                    current matches Some(id) ==> graph.nodes@.contains_key(id)
                        && graph.nodes@[id].is_layer,
                    graph.nodes@.len() - visited.len() + stack.len() <= budget,
                    visited.len() <= graph.nodes@.len(),
                    top matches Some(first) && (first == ROOT_NODE || visited.contains(first) || (
                    stack.len() > 0 && stack@[0].0 == first) || (current == Some(first) && steps
                        > 0)),
                    self.building(graph, stack@, done),
                    forall|p: LayerNodeIdentifier|
                        #[trigger] self@.contains_key(p) ==> done.contains(p) || on_stack(stack@, p)
                            || p == parent,
                    !done.contains(parent),
                    forall|j: int| 0 <= j < stack.len() ==> (#[trigger] stack@[j]).1 != parent,
                    chain == graph.spec_offspring(parent),
                    0 <= place <= chain.len(),
                    chain.skip(place) == graph.spec_layers_below(current, steps as nat),
                    forall|m: int|
                        0 <= m < place ==> self@.contains_key(LayerNodeIdentifier(#[trigger] chain[m])),
                    embeds(self.spec_children(parent), chain, at),
                    forall|j: int| 0 <= j < at.len() ==> #[trigger] at[j] < place,
                    self.has_child_lists(lists),
                    target == graph.spec_layer_tree(),
                    served + stack.len() <= 1 + visited.len(),
                    served >= 1,
                    graph.spec_walk_below(lists, stack@, parent, current, steps as nat) == goal,
                    graph.spec_serve(goal.0, goal.1, (graph.nodes@.len() + 1 - served) as nat)
                        == target,
                decreases steps,
            {
                let id = current.unwrap();
                let layer = LayerNodeIdentifier::new_unchecked(id);
                let ghost before = *self;
                let ghost waiting_now = stack@;
                proof {
                    assert(chain.skip(place)[0] == id);
                    assert(chain.skip(place).drop_first() =~= chain.skip(place + 1));
                }
                let ghost met = graph.spec_visit(lists, stack@, parent, id);
                if !self.layer_exists(layer) {
                    parent.push_child(self, layer);
                    proof {
                        lists = lists.insert(parent, lists[parent].push(layer)).insert(
                            layer,
                            Seq::empty(),
                        );
                        visited = visited.insert(id);
                        lemma_len_subset(visited, graph.nodes@.dom());
                        let children = self.spec_children(parent);
                        let grown = at.push(place);
                        assert(embeds(children, chain, grown)) by {
                            assert forall|j: int| 0 <= j < grown.len() implies 0 <= #[trigger] grown[j]
                                < chain.len() && children[j].0 == chain[grown[j]] by {
                                if j < at.len() {
                                    assert(grown[j] == at[j]);
                                }
                            }
                            assert forall|i: int, j: int| 0 <= i < j < grown.len() implies #[trigger] grown[i]
                                < #[trigger] grown[j] by {
                                assert(grown[i] == at[i]);
                                if j < at.len() {
                                    assert(grown[j] == at[j]);
                                }
                            }
                        }
                        at = grown;
                        assert forall|p: LayerNodeIdentifier| #[trigger] done.contains(p) implies self@.contains_key(
                            p,
                        ) && self.settled(graph, p) by {
                            assert(before.settled(graph, p));
                            assert(self.spec_children(p) == before.spec_children(p));
                        }
                    }
                    let child = graph.first_child_layer(id);
                    if let Some(child) = child {
                        stack.push((child, layer));
                    }
                    proof {
                        assert(met == (lists, stack@));
                        if child is None {
                            done = done.insert(layer);
                            assert(graph.spec_offspring(layer) =~= Seq::<NodeId>::empty());
                            assert(embeds(
                                self.spec_children(layer),
                                graph.spec_offspring(layer),
                                Seq::<int>::empty(),
                            ));
                            assert(self.settled(graph, layer));
                        }
                        assert forall|p: LayerNodeIdentifier| #[trigger]
                            self@.contains_key(p) implies done.contains(p) || on_stack(stack@, p)
                            || p == parent by {
                            if p == layer {
                                if child is Some {
                                    assert(stack@[stack@.len() - 1].1 == p);
                                }
                            } else if on_stack(waiting_now, p) {
                                let j = choose|j: int|
                                    0 <= j < waiting_now.len() && (#[trigger] waiting_now[j]).1 == p;
                                assert(stack@[j].1 == p);
                            }
                        }
                        assert(self.building(graph, stack@, done)) by {
                            assert forall|j: int| 0 <= j < stack@.len() implies {
                                &&& Some((#[trigger] stack@[j]).0) == graph.spec_head(stack@[j].1)
                                &&& self.spec_children(stack@[j].1) == Seq::<
                                    LayerNodeIdentifier,
                                >::empty()
                                &&& !done.contains(stack@[j].1)
                            } by {
                                if j < waiting_now.len() {
                                    assert(stack@[j] == waiting_now[j]);
                                    assert(before@.contains_key(waiting_now[j].1));
                                }
                            }
                            assert forall|i: int, j: int| 0 <= i < j < stack@.len() implies (
                            #[trigger] stack@[i]).1 != (#[trigger] stack@[j]).1 by {
                                assert(stack@[i] == waiting_now[i]);
                                if j < waiting_now.len() {
                                    assert(stack@[j] == waiting_now[j]);
                                } else {
                                    assert(before@.contains_key(waiting_now[i].1));
                                }
                            }
                        }
                    }
                    let ghost tagged_artboards = artboards@;
                    let ghost tagged_folders = folders@;
                    if is_artboard(layer, graph) {
                        artboards.push(id);
                    }
                    if is_folder(layer, graph) {
                        folders.push(id);
                    }
                    proof {
                        assert forall|k: NodeId| #[trigger]
                            artboards@.contains(k) <==> visited.contains(k)
                                && graph.spec_is_artboard(LayerNodeIdentifier(k)) by {
                            lemma_pushed_contains(tagged_artboards, artboards@, id, k);
                        }
                        assert forall|k: NodeId| #[trigger]
                            folders@.contains(k) <==> visited.contains(k) && graph.spec_is_folder(
                                LayerNodeIdentifier(k),
                            ) by {
                            lemma_pushed_contains(tagged_folders, folders@, id, k);
                        }
                    }
                }
                proof {
                    assert(met == (lists, stack@));
                }
                current = graph.sibling_below(id);
                steps -= 1;
                proof {
                    place = place + 1;
                }
            }
            proof {
                assert(chain.skip(place).len() == 0);
                assert(self.settled(graph, parent));
                done = done.insert(parent);
            }
        }
        self.replace_tags(artboards, folders);
        self.prune(graph);
    }
}

/// What a list holds after a push that may or may not have happened.
pub proof fn lemma_pushed_contains(before: Seq<NodeId>, after: Seq<NodeId>, pushed: NodeId, k: NodeId)
    requires
        after == before || after == before.push(pushed),
    ensures
        after.contains(k) <==> before.contains(k) || (after != before && k == pushed),
{
    if after == before.push(pushed) {
        if before.contains(k) {
            let j = choose|j: int| 0 <= j < before.len() && before[j] == k;
            assert(after[j] == k);
        }
        if after.contains(k) {
            let j = choose|j: int| 0 <= j < after.len() && after[j] == k;
            if j < before.len() {
                assert(before[j] == k);
            }
        }
        assert(after[before.len() as int] == pushed);
        assert(after != before) by {
            assert(after.len() != before.len());
        }
    }
}

} // verus!
