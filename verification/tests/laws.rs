use document_metadata::{Axis, AxisIter, DocumentMetadata, LayerNodeIdentifier};

fn layer(node: u64) -> LayerNodeIdentifier {
    LayerNodeIdentifier::new_unchecked(node)
}

fn keys(layers: Vec<LayerNodeIdentifier>) -> Vec<u64> {
    layers.into_iter().map(LayerNodeIdentifier::to_node).collect()
}

/// A tree made by every kind of insert and by deletes.
fn edited() -> DocumentMetadata {
    let mut metadata = DocumentMetadata::default();
    let root = metadata.root();
    root.push_child(&mut metadata, layer(10));
    root.push_front_child(&mut metadata, layer(20));
    layer(10).add_before(&mut metadata, layer(30));
    layer(10).add_after(&mut metadata, layer(40));
    layer(30).push_child(&mut metadata, layer(31));
    layer(30).push_front_child(&mut metadata, layer(32));
    layer(31).add_after(&mut metadata, layer(33));
    layer(32).add_before(&mut metadata, layer(34));
    layer(33).push_child(&mut metadata, layer(35));
    layer(40).push_child(&mut metadata, layer(41));
    layer(41).push_child(&mut metadata, layer(42));
    layer(20).push_child(&mut metadata, layer(21));
    layer(31).delete(&mut metadata);
    layer(20).delete(&mut metadata);
    layer(42).add_after(&mut metadata, layer(43));
    metadata
}

fn count(layers: &[LayerNodeIdentifier], layer: LayerNodeIdentifier) -> usize {
    layers.iter().filter(|other| **other == layer).count()
}

#[test]
fn every_layer_stands_once_in_both_chains_of_its_parent() {
    let metadata = edited();
    let all = metadata.all_layers().collect();
    assert_eq!(keys(all.clone()), vec![30, 34, 32, 33, 35, 10, 40, 41, 42, 43]);
    for layer in all {
        let parent = layer.parent(&metadata).expect("only the root has no parent");
        assert!(parent.exists_in(&metadata));
        let forward = parent.children(&metadata).collect();
        let backward = AxisIter::new(parent.last_child(&metadata), Axis::PreviousSiblings, &metadata).collect();
        assert_eq!(count(&forward, layer), 1);
        assert_eq!(count(&backward, layer), 1);
        let mut reversed = forward.clone();
        reversed.reverse();
        assert_eq!(backward, reversed);
        assert!(forward.iter().all(|child| child.parent(&metadata) == Some(parent)));
    }
}

#[test]
fn descendants_backward_are_descendants_forward_reversed() {
    let metadata = edited();
    for start in [0, 30, 33, 40, 41, 10, 35, 77] {
        let forward = layer(start).decendants(&metadata).collect();
        let mut backward = layer(start).decendants(&metadata).collect_reversed();
        backward.reverse();
        assert_eq!(forward, backward);
    }
    assert_eq!(keys(layer(30).decendants(&metadata).collect()), vec![34, 32, 33, 35]);
    assert_eq!(keys(layer(40).decendants(&metadata).collect_reversed()), vec![43, 42, 41]);
}

#[test]
fn descendants_of_a_bare_chain_and_of_a_flat_list() {
    let mut chain = DocumentMetadata::default();
    chain.root().push_child(&mut chain, layer(1));
    layer(1).push_child(&mut chain, layer(2));
    layer(2).push_child(&mut chain, layer(3));
    assert_eq!(keys(chain.all_layers().collect()), vec![1, 2, 3]);
    assert_eq!(keys(chain.all_layers().collect_reversed()), vec![3, 2, 1]);
    let mut flat = DocumentMetadata::default();
    flat.root().push_child(&mut flat, layer(1));
    flat.root().push_child(&mut flat, layer(2));
    flat.root().push_child(&mut flat, layer(3));
    assert_eq!(keys(flat.all_layers().collect()), vec![1, 2, 3]);
    assert_eq!(keys(flat.all_layers().collect_reversed()), vec![3, 2, 1]);
}

#[test]
fn descendants_list_each_child_before_what_lies_below_it() {
    let metadata = edited();
    for parent in [0, 30, 33, 40, 41] {
        let mut expected = Vec::new();
        for child in layer(parent).children(&metadata).collect() {
            expected.push(child);
            expected.extend(child.decendants(&metadata).collect());
        }
        assert_eq!(layer(parent).decendants(&metadata).collect(), expected);
    }
}

#[test]
fn inserts_at_the_ends_move_the_first_and_last_child() {
    let mut metadata = DocumentMetadata::default();
    let root = metadata.root();
    root.push_child(&mut metadata, layer(5));
    layer(5).add_before(&mut metadata, layer(4));
    assert_eq!(root.first_child(&metadata), Some(layer(4)));
    assert_eq!(root.last_child(&metadata), Some(layer(5)));
    layer(5).add_after(&mut metadata, layer(6));
    assert_eq!(root.last_child(&metadata), Some(layer(6)));
    assert_eq!(layer(6).previous_sibling(&metadata), Some(layer(5)));
    assert_eq!(layer(5).next_sibling(&metadata), Some(layer(6)));
    assert_eq!(layer(4).previous_sibling(&metadata), None);
    assert_eq!(layer(6).next_sibling(&metadata), None);
    assert_eq!(layer(4).parent(&metadata), Some(root));
    layer(4).delete(&mut metadata);
    assert_eq!(root.first_child(&metadata), Some(layer(5)));
    layer(6).delete(&mut metadata);
    assert_eq!(root.last_child(&metadata), Some(layer(5)));
    layer(5).delete(&mut metadata);
    assert_eq!(root.first_child(&metadata), None);
    assert_eq!(root.last_child(&metadata), None);
}

#[test]
fn deleting_the_root_leaves_nothing() {
    let mut metadata = edited();
    let root = metadata.root();
    root.delete(&mut metadata);
    assert!(!metadata.layer_exists(root));
    assert!(!metadata.layer_exists(layer(30)));
    assert!(!metadata.layer_exists(layer(43)));
}

#[test]
fn a_copy_keeps_the_tree_and_the_selection() {
    let mut metadata = edited();
    let _ = metadata.set_selected_nodes(vec![33, 10]);
    metadata.update_transforms(vec![40]);
    let copy = metadata.clone();
    layer(30).delete(&mut metadata);
    assert_eq!(keys(copy.all_layers().collect()), vec![30, 34, 32, 33, 35, 10, 40, 41, 42, 43]);
    assert_eq!(keys(copy.selected_layers()), vec![33, 10]);
    assert_eq!(copy.transform_to_viewport(layer(43)), Some(40));
    assert_eq!(keys(metadata.selected_layers()), vec![10]);
}

#[test]
fn siblings_under_any_layer_share_that_layer() {
    let metadata = edited();
    assert_eq!(metadata.deepest_common_ancestor(vec![layer(34), layer(33)], true), Some(layer(30)));
    assert_eq!(metadata.deepest_common_ancestor(vec![layer(35), layer(32)], true), Some(layer(30)));
    assert_eq!(metadata.deepest_common_ancestor(vec![layer(30), layer(10), layer(40)], false), Some(metadata.root()));
    assert_eq!(metadata.deepest_common_ancestor(vec![layer(42), layer(43), layer(41)], true), Some(layer(41)));
}
