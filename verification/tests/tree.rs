use document_metadata::{DocumentMetadata, LayerNodeIdentifier};

fn nodes(layers: Vec<LayerNodeIdentifier>) -> Vec<u64> {
    layers.into_iter().map(LayerNodeIdentifier::to_node).collect()
}

#[test]
fn test_tree() {
    let mut document_metadata = DocumentMetadata::default();
    let root = document_metadata.root();
    let document_metadata = &mut document_metadata;
    root.push_child(document_metadata, LayerNodeIdentifier::new_unchecked(3));
    assert_eq!(root.children(document_metadata).collect(), vec![LayerNodeIdentifier::new_unchecked(3)]);
    root.push_child(document_metadata, LayerNodeIdentifier::new_unchecked(6));
    assert_eq!(nodes(root.children(document_metadata).collect()), vec![3, 6]);
    assert_eq!(nodes(root.decendants(document_metadata).collect()), vec![3, 6]);
    LayerNodeIdentifier::new_unchecked(3).add_after(document_metadata, LayerNodeIdentifier::new_unchecked(4));
    LayerNodeIdentifier::new_unchecked(3).add_before(document_metadata, LayerNodeIdentifier::new_unchecked(2));
    LayerNodeIdentifier::new_unchecked(6).add_before(document_metadata, LayerNodeIdentifier::new_unchecked(5));
    LayerNodeIdentifier::new_unchecked(6).add_after(document_metadata, LayerNodeIdentifier::new_unchecked(9));
    LayerNodeIdentifier::new_unchecked(6).push_child(document_metadata, LayerNodeIdentifier::new_unchecked(8));
    LayerNodeIdentifier::new_unchecked(6).push_front_child(document_metadata, LayerNodeIdentifier::new_unchecked(7));
    root.push_front_child(document_metadata, LayerNodeIdentifier::new_unchecked(1));
    assert_eq!(nodes(root.children(document_metadata).collect()), vec![1, 2, 3, 4, 5, 6, 9]);
    assert_eq!(nodes(root.decendants(document_metadata).collect()), vec![1, 2, 3, 4, 5, 6, 7, 8, 9]);
    assert_eq!(nodes(root.decendants(document_metadata).collect_reversed()), vec![9, 8, 7, 6, 5, 4, 3, 2, 1]);
    assert!(root.children(document_metadata).collect().into_iter().all(|child| child.parent(document_metadata) == Some(root)));
    LayerNodeIdentifier::new_unchecked(6).delete(document_metadata);
    LayerNodeIdentifier::new_unchecked(1).delete(document_metadata);
    LayerNodeIdentifier::new_unchecked(9).push_child(document_metadata, LayerNodeIdentifier::new_unchecked(10));
    assert_eq!(nodes(root.children(document_metadata).collect()), vec![2, 3, 4, 5, 9]);
    assert_eq!(nodes(root.decendants(document_metadata).collect()), vec![2, 3, 4, 5, 9, 10]);
    assert_eq!(nodes(root.decendants(document_metadata).collect_reversed()), vec![10, 9, 5, 4, 3, 2]);
}
