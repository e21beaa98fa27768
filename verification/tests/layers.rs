use std::collections::HashMap;

use document_metadata::{
    is_artboard, is_folder, DocumentMetadata, DocumentNode, DownstreamTransform,
    LayerNodeIdentifier, NodeNetwork, NodeRelations,
};

fn layer(node: u64) -> LayerNodeIdentifier {
    LayerNodeIdentifier::new_unchecked(node)
}

fn keys(layers: Vec<LayerNodeIdentifier>) -> Vec<u64> {
    layers.into_iter().map(LayerNodeIdentifier::to_node).collect()
}

fn paths(paths: Vec<Vec<LayerNodeIdentifier>>) -> Vec<Vec<u64>> {
    paths.into_iter().map(keys).collect()
}

/// root -> [1 -> [2 -> [3], 4], 5 -> [6]]
fn sample() -> DocumentMetadata {
    let mut metadata = DocumentMetadata::default();
    let root = metadata.root();
    root.push_child(&mut metadata, layer(1));
    root.push_child(&mut metadata, layer(5));
    layer(1).push_child(&mut metadata, layer(2));
    layer(1).push_child(&mut metadata, layer(4));
    layer(2).push_child(&mut metadata, layer(3));
    layer(5).push_child(&mut metadata, layer(6));
    metadata
}

fn node(inputs: Vec<Option<u64>>, is_layer: bool, is_artboard: bool) -> DocumentNode {
    DocumentNode { inputs, is_layer, is_artboard }
}

/// Output 100 takes layer 1. Layer 1 holds layer 2 (through node 10) and has
/// layer 5 below it. Layer 2 holds an artboard node 20 and has layer 4 below
/// it. Layer 5 has a value as its first input.
fn graph() -> NodeNetwork {
    let mut nodes = HashMap::new();
    nodes.insert(100, node(vec![Some(1)], false, false));
    nodes.insert(1, node(vec![Some(10), Some(5)], true, false));
    nodes.insert(10, node(vec![Some(2)], false, false));
    nodes.insert(2, node(vec![Some(20), Some(4)], true, false));
    nodes.insert(20, node(vec![None], false, true));
    nodes.insert(4, node(vec![Some(30), None], true, false));
    nodes.insert(30, node(vec![], false, false));
    nodes.insert(5, node(vec![None, None], true, false));
    NodeNetwork { outputs: vec![100], nodes }
}

#[test]
fn identifier_round_trip() {
    assert_eq!(layer(7).to_node(), 7);
    assert_eq!(layer(u64::MAX).to_node(), u64::MAX);
    assert_eq!(layer(7).to_path(), vec![7]);
    assert_eq!(LayerNodeIdentifier::root().to_node(), 0);
    assert_eq!(LayerNodeIdentifier::default(), LayerNodeIdentifier::root());
    assert_eq!(LayerNodeIdentifier::from(9), layer(9));
    assert_eq!(u64::from(layer(9)), 9);
    assert_eq!(format!("{:?}", layer(3)), "LayerNodeIdentifier(3)");
    assert!(layer(2) < layer(3));
    assert_eq!(layer(2), layer(2));
    assert_ne!(layer(2), layer(3));
}

#[test]
fn new_document_holds_the_root_alone() {
    let metadata = DocumentMetadata::default();
    let root = metadata.root();
    assert!(metadata.layer_exists(root));
    assert!(root.exists_in(&metadata));
    assert!(!layer(1).exists_in(&metadata));
    assert!(!root.has_children(&metadata));
    assert_eq!(root.parent(&metadata), None);
    assert_eq!(keys(metadata.all_layers().collect()), Vec::<u64>::new());
    assert!(!metadata.has_selected_nodes());
    assert_eq!(metadata.active_artboard(), root);
    assert_eq!(NodeRelations::default().parent, None);
}

#[test]
fn accessors_of_unknown_layers_give_none() {
    let metadata = sample();
    assert_eq!(layer(99).parent(&metadata), None);
    assert_eq!(layer(99).previous_sibling(&metadata), None);
    assert_eq!(layer(99).next_sibling(&metadata), None);
    assert_eq!(layer(99).first_child(&metadata), None);
    assert_eq!(layer(99).last_child(&metadata), None);
    assert!(!layer(99).has_children(&metadata));
    assert!(!layer(99).exists_in(&metadata));
    assert_eq!(keys(layer(99).ancestors(&metadata).collect()), vec![99]);
    assert_eq!(keys(layer(99).children(&metadata).collect()), Vec::<u64>::new());
    assert_eq!(keys(layer(99).decendants(&metadata).collect()), Vec::<u64>::new());
}

#[test]
fn links_of_the_sample() {
    let metadata = sample();
    let root = metadata.root();
    assert_eq!(layer(2).parent(&metadata), Some(layer(1)));
    assert_eq!(layer(2).next_sibling(&metadata), Some(layer(4)));
    assert_eq!(layer(4).previous_sibling(&metadata), Some(layer(2)));
    assert_eq!(layer(1).first_child(&metadata), Some(layer(2)));
    assert_eq!(layer(1).last_child(&metadata), Some(layer(4)));
    assert_eq!(root.first_child(&metadata), Some(layer(1)));
    assert_eq!(root.last_child(&metadata), Some(layer(5)));
    assert_eq!(keys(layer(3).ancestors(&metadata).collect()), vec![3, 2, 1, 0]);
    assert_eq!(keys(root.last_children(&metadata).collect()), vec![0, 5, 6]);
    assert_eq!(keys(layer(1).decendants(&metadata).collect()), vec![2, 3, 4]);
    assert_eq!(keys(layer(1).decendants(&metadata).collect_reversed()), vec![4, 3, 2]);
    assert_eq!(keys(metadata.all_layers().collect()), vec![1, 2, 3, 4, 5, 6]);
}

#[test]
fn walk_from_both_ends_meets_in_the_middle() {
    let metadata = sample();
    let mut walk = metadata.all_layers();
    assert_eq!(walk.next(), Some(layer(1)));
    assert_eq!(walk.next_back(), Some(layer(6)));
    assert_eq!(walk.next_back(), Some(layer(5)));
    assert_eq!(walk.next(), Some(layer(2)));
    assert_eq!(walk.next(), Some(layer(3)));
    assert_eq!(walk.next_back(), Some(layer(4)));
    assert_eq!(walk.next(), None);
    assert_eq!(walk.next_back(), None);
}

#[test]
fn axis_walk_step_by_step() {
    let metadata = sample();
    let mut walk = layer(2).children(&metadata);
    assert_eq!(walk.next(), Some(layer(3)));
    assert_eq!(walk.next(), None);
    assert_eq!(walk.next(), None);
}

#[test]
fn starts_with_and_child_of_root() {
    let metadata = sample();
    assert!(layer(3).starts_with(layer(1), &metadata));
    assert!(layer(3).starts_with(layer(3), &metadata));
    assert!(layer(3).starts_with(metadata.root(), &metadata));
    assert!(!layer(3).starts_with(layer(5), &metadata));
    assert!(!layer(1).starts_with(layer(3), &metadata));
    assert_eq!(layer(3).child_of_root(&metadata), layer(1));
    assert_eq!(layer(1).child_of_root(&metadata), layer(1));
    assert_eq!(layer(6).child_of_root(&metadata), layer(5));
}

#[test]
fn delete_takes_the_subtree_along() {
    let mut metadata = sample();
    layer(2).delete(&mut metadata);
    assert!(!layer(2).exists_in(&metadata));
    assert!(!layer(3).exists_in(&metadata));
    assert_eq!(layer(1).first_child(&metadata), Some(layer(4)));
    assert_eq!(layer(1).last_child(&metadata), Some(layer(4)));
    assert_eq!(layer(4).previous_sibling(&metadata), None);
    assert_eq!(keys(metadata.all_layers().collect()), vec![1, 4, 5, 6]);
    layer(77).delete(&mut metadata);
    assert_eq!(keys(metadata.all_layers().collect()), vec![1, 4, 5, 6]);
    layer(5).delete(&mut metadata);
    assert_eq!(metadata.root().last_child(&metadata), Some(layer(1)));
    assert_eq!(layer(1).next_sibling(&metadata), None);
    assert_eq!(keys(metadata.all_layers().collect_reversed()), vec![4, 1]);
}

#[test]
fn push_to_a_missing_parent_makes_it() {
    let mut metadata = DocumentMetadata::default();
    layer(8).push_child(&mut metadata, layer(9));
    assert!(layer(8).exists_in(&metadata));
    assert_eq!(layer(8).parent(&metadata), None);
    assert_eq!(layer(8).first_child(&metadata), Some(layer(9)));
    assert_eq!(layer(8).last_child(&metadata), Some(layer(9)));
    assert_eq!(layer(9).parent(&metadata), Some(layer(8)));
}

#[test]
fn selection_keeps_order_and_duplicates() {
    let mut metadata = sample();
    let _ = metadata.set_selected_nodes(vec![6, 3]);
    let _ = metadata.add_selected_nodes(vec![3, 42]);
    assert_eq!(metadata.selected_nodes(), vec![6, 3, 3, 42]);
    assert_eq!(metadata.selected_nodes_ref(), &vec![6, 3, 3, 42]);
    assert!(metadata.has_selected_nodes());
    assert_eq!(keys(metadata.selected_layers()), vec![3, 6]);
    assert!(metadata.selected_layers_contains(layer(3)));
    assert!(!metadata.selected_layers_contains(layer(42)));
    assert!(!metadata.selected_layers_contains(layer(1)));
    let _ = metadata.retain_selected_nodes(|node| *node != 3);
    assert_eq!(metadata.selected_nodes(), vec![6, 42]);
    let _ = metadata.clear_selected_nodes();
    assert!(!metadata.has_selected_nodes());
    assert_eq!(keys(metadata.selected_layers()), Vec::<u64>::new());
}

#[test]
fn shallowest_unique_layers_drop_what_lies_below() {
    let metadata = sample();
    let shallowest = metadata.shallowest_unique_layers(vec![layer(6), layer(3), layer(2), layer(4), layer(2)]);
    assert_eq!(paths(shallowest), vec![vec![0, 1, 2], vec![0, 1, 4], vec![0, 5, 6]]);
    let all = metadata.shallowest_unique_layers(vec![layer(3), layer(1), layer(6), metadata.root()]);
    assert_eq!(paths(all), vec![vec![0]]);
    assert_eq!(paths(metadata.shallowest_unique_layers(vec![])), Vec::<Vec<u64>>::new());
}

#[test]
fn deepest_common_ancestor_of_siblings_is_the_root() {
    let metadata = sample();
    let root = metadata.root();
    assert_eq!(metadata.deepest_common_ancestor(vec![layer(1), layer(5)], true), Some(root));
    assert_eq!(metadata.deepest_common_ancestor(vec![layer(1), layer(5)], false), Some(root));
}

#[test]
fn deepest_common_ancestor_cases() {
    let mut metadata = DocumentMetadata::default();
    metadata.load_structure(&graph());
    assert!(metadata.is_folder(layer(1)));
    assert!(!metadata.is_folder(layer(4)));
    assert_eq!(metadata.deepest_common_ancestor(vec![], true), None);
    assert_eq!(metadata.deepest_common_ancestor(vec![layer(4)], true), Some(layer(4)));
    assert_eq!(metadata.deepest_common_ancestor(vec![layer(4)], false), Some(layer(4)));
    assert_eq!(metadata.deepest_common_ancestor(vec![layer(1)], true), Some(layer(1)));
    assert_eq!(metadata.deepest_common_ancestor(vec![layer(1)], false), Some(metadata.root()));
    assert_eq!(metadata.deepest_common_ancestor(vec![layer(2), layer(4)], true), Some(layer(1)));
    assert_eq!(metadata.deepest_common_ancestor(vec![layer(4), layer(5)], true), Some(metadata.root()));
    assert_eq!(metadata.deepest_common_ancestor(vec![layer(4), layer(1)], true), Some(layer(1)));
    assert_eq!(metadata.deepest_common_ancestor(vec![layer(4), layer(1)], false), Some(metadata.root()));
}

#[test]
fn rebuild_from_graph() {
    let mut metadata = sample();
    let _ = metadata.set_selected_nodes(vec![6, 4, 999, 30]);
    metadata.update_transforms(vec![1, 6, 30]);
    metadata.update_click_targets(vec![layer(4), layer(6), layer(30)]);
    let graph = graph();
    metadata.load_structure(&graph);
    let root = metadata.root();
    assert_eq!(keys(root.children(&metadata).collect()), vec![1, 5]);
    assert_eq!(keys(layer(1).children(&metadata).collect()), vec![2, 4]);
    assert_eq!(keys(metadata.all_layers().collect()), vec![1, 2, 4, 5]);
    assert_eq!(keys(metadata.all_layers().collect_reversed()), vec![5, 4, 2, 1]);
    assert!(metadata.is_artboard(layer(2)));
    assert!(metadata.is_artboard(layer(1)));
    assert!(!metadata.is_artboard(layer(4)));
    assert!(!metadata.is_artboard(layer(5)));
    assert!(metadata.is_folder(layer(1)));
    assert!(metadata.is_folder(layer(2)));
    assert!(!metadata.is_folder(layer(4)));
    assert!(metadata.is_folder(layer(5)));
    assert_eq!(metadata.active_artboard(), layer(1));
    assert_eq!(keys(metadata.all_layers_except_artboards()), vec![4, 5]);
    assert_eq!(metadata.selected_nodes(), vec![4, 30]);
    assert_eq!(keys(metadata.selected_layers()), vec![4]);
    assert_eq!(keys(metadata.selected_layers_except_artboards()), vec![4]);
    assert_eq!(metadata.upstream_transform(1), Some(1));
    assert_eq!(metadata.upstream_transform(30), Some(30));
    assert_eq!(metadata.upstream_transform(6), None);
    assert!(metadata.click_target(layer(4)));
    assert!(!metadata.click_target(layer(6)));
    assert!(!metadata.click_target(layer(30)));
    assert_eq!(keys(metadata.folders(vec![layer(4), layer(5), layer(2), layer(1)])), vec![5, 2, 1]);
    assert_eq!(keys(metadata.folders_sorted_by_most_nested(vec![layer(4), layer(5), layer(1), layer(2)])), vec![2, 5, 1]);
}

#[test]
fn rebuild_without_a_top_layer_leaves_the_root() {
    let mut metadata = sample();
    let _ = metadata.set_selected_nodes(vec![6, 999]);
    let network = NodeNetwork { outputs: vec![100], nodes: HashMap::new() };
    metadata.load_structure(&network);
    assert_eq!(keys(metadata.all_layers().collect()), Vec::<u64>::new());
    assert_eq!(metadata.selected_nodes(), Vec::<u64>::new());
    let empty = NodeNetwork { outputs: vec![], nodes: HashMap::new() };
    metadata.load_structure(&empty);
    assert!(metadata.layer_exists(metadata.root()));
    assert_eq!(metadata.root().first_child(&metadata), None);
}

#[test]
fn rebuild_without_a_top_layer_still_prunes() {
    let mut metadata = sample();
    let _ = metadata.set_selected_nodes(vec![6, 7, 999, 7]);
    metadata.update_transforms(vec![0, 7, 6]);
    metadata.update_click_targets(vec![layer(0), layer(6), layer(7)]);
    let mut nodes = HashMap::new();
    nodes.insert(7, node(vec![None, None], false, false));
    nodes.insert(100, node(vec![Some(7)], false, false));
    let network = NodeNetwork { outputs: vec![100], nodes };
    metadata.load_structure(&network);
    assert_eq!(keys(metadata.all_layers().collect()), Vec::<u64>::new());
    assert_eq!(metadata.active_artboard(), metadata.root());
    assert!(!metadata.is_folder(layer(1)));
    assert_eq!(metadata.selected_nodes(), vec![7, 7]);
    assert_eq!(metadata.upstream_transform(7), Some(7));
    assert_eq!(metadata.upstream_transform(6), None);
    assert_eq!(metadata.upstream_transform(0), None);
    assert!(metadata.click_target(layer(0)));
    assert!(!metadata.click_target(layer(6)));
    assert!(!metadata.click_target(layer(7)));
}

#[test]
fn rebuild_visits_a_shared_layer_once() {
    let mut nodes = HashMap::new();
    nodes.insert(100, node(vec![Some(1)], false, false));
    nodes.insert(1, node(vec![Some(3), Some(2)], true, false));
    nodes.insert(2, node(vec![Some(3), None], true, false));
    nodes.insert(3, node(vec![None, None], true, false));
    let network = NodeNetwork { outputs: vec![100], nodes };
    let mut metadata = DocumentMetadata::default();
    metadata.load_structure(&network);
    assert_eq!(keys(metadata.all_layers().collect()), vec![1, 2, 3]);
    assert_eq!(layer(3).parent(&metadata), Some(layer(2)));
    assert_eq!(keys(layer(1).children(&metadata).collect()), Vec::<u64>::new());
}

#[test]
fn graph_classification() {
    let graph = graph();
    assert!(is_artboard(layer(2), &graph));
    assert!(is_artboard(layer(1), &graph));
    assert!(!is_artboard(layer(4), &graph));
    assert!(!is_artboard(layer(77), &graph));
    assert!(is_folder(layer(1), &graph));
    assert!(is_folder(layer(5), &graph));
    assert!(!is_folder(layer(4), &graph));
    assert!(!is_folder(layer(30), &graph));
    assert!(!is_folder(layer(77), &graph));
    assert!(graph.is_layer_node(0));
    assert!(graph.is_layer_node(4));
    assert!(!graph.is_layer_node(10));
    assert_eq!(LayerNodeIdentifier::new(4, &graph), layer(4));
    assert_eq!(LayerNodeIdentifier::from_path(&[1, 2], &graph), layer(2));
    assert_eq!(graph.first_child_layer(1), Some(2));
    assert_eq!(graph.first_child_layer(4), None);
    assert_eq!(graph.sibling_below(1), Some(5));
    assert_eq!(graph.sibling_below(5), None);
}

#[test]
fn upstream_walk_ends_in_a_cycle() {
    let mut nodes = HashMap::new();
    nodes.insert(1, node(vec![Some(2)], true, false));
    nodes.insert(2, node(vec![Some(1)], false, false));
    let network = NodeNetwork { outputs: vec![1], nodes };
    assert!(!is_artboard(layer(1), &network));
    assert!(is_folder(layer(1), &network));
    assert_eq!(network.first_child_layer(2), Some(1));
}

#[test]
fn transform_comes_from_the_nearest_cached_ancestor() {
    let mut metadata = sample();
    assert_eq!(metadata.transform_to_viewport(layer(3)), None);
    metadata.update_transforms(vec![1, 5, 3000]);
    assert_eq!(metadata.transform_to_viewport(layer(3)), Some(1));
    assert_eq!(metadata.transform_to_viewport(layer(1)), Some(1));
    assert_eq!(metadata.transform_to_viewport(layer(6)), Some(5));
    assert_eq!(metadata.transform_to_viewport(metadata.root()), None);
    assert_eq!(metadata.downstream_transform_to_viewport(layer(1)), DownstreamTransform::Footprint(1));
    assert_eq!(metadata.downstream_transform_to_viewport(layer(3)), DownstreamTransform::Upstream(Some(1)));
    metadata.update_transforms(vec![0]);
    assert_eq!(metadata.transform_to_viewport(layer(3)), Some(0));
    assert_eq!(metadata.upstream_transform(3), None);
    assert_eq!(metadata.upstream_transform(0), Some(0));
    metadata.update_transforms(vec![]);
    assert_eq!(metadata.downstream_transform_to_viewport(layer(3)), DownstreamTransform::Upstream(None));
}
