use treeboost::tree::dataset::BinnedDataset;
use treeboost::tree::ensemble::EnsembleTree;
use treeboost::tree::node::Node;
use treeboost::tree::tree::Tree;
use treeboost::tree::vector_tree::{VectorNode, VectorTree};

#[test]
fn test_tree_creation() {
    let tree = Tree::<f32, f64>::new(0.5, 100, 10.0, 20.0);

    assert_eq!(tree.num_nodes(), 1);
    assert_eq!(tree.num_leaves(), 1);
    assert!(tree.root().is_leaf());
    assert_eq!(tree.root().leaf_value(), Some(0.5));
}

#[test]
fn test_tree_prediction() {
    // Create a simple tree:
    //        [f0 <= 5]
    //        /        \
    //    leaf=1.0   [f1 <= 10]
    //               /        \
    //           leaf=2.0   leaf=3.0

    let tree = Tree::<f32, f64>::from_nodes(vec![
        Node::internal(0, 5, 5.0, 1, 2, 0, 100, 0.0, 100.0),
        Node::leaf(1.0, 1, 50, 0.0, 50.0),
        Node::internal(1, 10, 10.0, 3, 4, 1, 50, 0.0, 50.0),
        Node::leaf(2.0, 2, 25, 0.0, 25.0),
        Node::leaf(3.0, 2, 25, 0.0, 25.0),
    ]);

    // Test predictions
    // f0=3 (<=5): go left -> leaf=1.0
    assert_eq!(tree.predict(|f| if f == 0 { 3 } else { 0 }), 1.0);

    // f0=7 (>5): go right, f1=5 (<=10): go left -> leaf=2.0
    assert_eq!(tree.predict(|f| if f == 0 { 7 } else { 5 }), 2.0);

    // f0=7 (>5): go right, f1=15 (>10): go right -> leaf=3.0
    assert_eq!(tree.predict(|f| if f == 0 { 7 } else { 15 }), 3.0);
}

#[test]
fn test_tree_stats() {
    let tree = Tree::<f32, f64>::from_nodes(vec![
        Node::internal(0, 5, 5.0, 1, 2, 0, 100, 0.0, 100.0),
        Node::leaf(1.0, 1, 50, 0.0, 50.0),
        Node::internal(1, 10, 10.0, 3, 4, 1, 50, 0.0, 50.0),
        Node::leaf(2.0, 2, 25, 0.0, 25.0),
        Node::leaf(3.0, 2, 25, 0.0, 25.0),
    ]);

    assert_eq!(tree.num_nodes(), 5);
    assert_eq!(tree.num_leaves(), 3);
    assert_eq!(tree.max_depth(), 2);
}

#[test]
fn test_ensemble_tree_scalar() {
    let tree = Tree::<f32, f64>::new(0.5, 100, 10.0, 20.0);
    let ensemble = EnsembleTree::from(tree);

    assert!(ensemble.is_scalar());
    assert!(!ensemble.is_vector());
    assert_eq!(ensemble.num_nodes(), 1);
    assert_eq!(ensemble.num_leaves(), 1);
    assert_eq!(ensemble.num_outputs(), 1);
}

#[test]
fn test_ensemble_tree_vector() {
    let tree = VectorTree::<f32, f64>::new(
        vec![0.5, 1.0, 1.5],
        100,
        vec![10.0, 20.0, 30.0],
        vec![5.0, 10.0, 15.0],
    );
    let ensemble = EnsembleTree::from(tree);

    assert!(!ensemble.is_scalar());
    assert!(ensemble.is_vector());
    assert_eq!(ensemble.num_nodes(), 1);
    assert_eq!(ensemble.num_leaves(), 1);
    assert_eq!(ensemble.num_outputs(), 3);
}

#[test]
fn test_scalar_prediction() {
    let tree = Tree::<f32, f64>::from_nodes(vec![
        Node::internal(0, 5, 5.0, 1, 2, 0, 100, 0.0, 100.0),
        Node::leaf(1.0, 1, 50, 0.0, 50.0),
        Node::leaf(2.0, 1, 50, 0.0, 50.0),
    ]);
    let ensemble = EnsembleTree::from(tree);

    // bin=3 <= 5, go left -> leaf=1.0
    assert_eq!(ensemble.predict_scalar(|_| 3), 1.0);

    // bin=7 > 5, go right -> leaf=2.0
    assert_eq!(ensemble.predict_scalar(|_| 7), 2.0);
}

#[test]
fn test_vector_node_leaf() {
    let node = VectorNode::<f32, f64>::leaf(
        vec![1.0, 2.0, 3.0],
        2,
        100,
        vec![10.0, 20.0, 30.0],
        vec![5.0, 10.0, 15.0],
    );

    assert!(node.is_leaf());
    assert_eq!(node.num_outputs(), 3);
    assert_eq!(node.leaf_values(), Some(&[1.0f32, 2.0, 3.0][..]));
}

#[test]
fn test_vector_node_internal() {
    let node = VectorNode::<f32, f64>::internal(
        5,
        128,
        5.5,
        1,
        2,
        1,
        200,
        vec![15.0, 25.0],
        vec![8.0, 12.0],
    );

    assert!(!node.is_leaf());
    assert_eq!(node.num_outputs(), 2);
    let info = node.split_info();
    assert!(info.is_some());
}

#[test]
fn test_vector_tree_new() {
    let tree = VectorTree::<f32, f64>::new(
        vec![0.5, 1.0],
        100,
        vec![0.0, 0.0],
        vec![100.0, 100.0],
    );

    assert_eq!(tree.num_nodes(), 1);
    assert_eq!(tree.num_outputs(), 2);
    assert!(tree.root().is_leaf());
}

#[test]
fn test_leaf_weight_computation() {
    let weights = VectorNode::<f32, f64>::compute_leaf_weights(
        &[-10.0, -20.0],
        &[20.0, 40.0],
        0.0, // No regularization
    );

    assert!((weights[0] - 0.5).abs() < 1e-6);
    assert!((weights[1] - 0.5).abs() < 1e-6);
}

fn small_tree() -> Tree<f32, f64> {
    Tree::from_nodes(vec![
        Node::internal(0, 5, 0.5, 1, 2, 0, 100, 0.0, 100.0),
        Node::leaf(1.0, 1, 50, 0.0, 50.0),
        Node::internal(1, 10, 2.0, 3, 4, 1, 50, 0.0, 50.0),
        Node::leaf(2.0, 2, 25, 0.0, 25.0),
        Node::leaf(3.0, 2, 25, 0.0, 25.0),
    ])
}

#[test]
fn rows_and_functions_agree() {
    let dataset = BinnedDataset::new(3, 2, &[3, 7, 7, 0, 5, 15]);
    let tree = small_tree();
    assert_eq!(tree.predict_all(&dataset), vec![1.0, 2.0, 3.0]);
    for row in 0..3 {
        assert_eq!(
            tree.predict_row(&dataset, row),
            tree.predict(|f| dataset.get_bin(row, f))
        );
    }
    let mut plain: Vec<f32> = vec![10.0; 3];
    tree.predict_batch_add(&dataset, &mut plain);
    assert_eq!(plain, vec![11.0, 12.0, 13.0]);
    let mut columnar: Vec<f32> = vec![10.0; 3];
    tree.predict_batch_add_columnar(&dataset, &mut columnar);
    assert_eq!(columnar, plain);
}

#[test]
fn raw_values_are_compared_with_the_split_values() {
    let tree = small_tree();
    assert_eq!(tree.predict_raw(|f| if f == 0 { 0.5 } else { 9.0 }), 1.0);
    assert_eq!(tree.predict_raw(|f| if f == 0 { 0.6 } else { 2.0 }), 2.0);
    let mut predictions: Vec<f32> = vec![0.0; 2];
    tree.predict_batch_add_raw(&[0.5, 9.0, 0.6, 2.1], 2, &mut predictions);
    assert_eq!(predictions, vec![1.0, 3.0]);
}

#[test]
fn leaves_and_tests_are_listed_with_their_places() {
    let tree = small_tree();
    let leaves: Vec<usize> = tree.leaves().iter().map(|l| l.0).collect();
    assert_eq!(leaves, vec![1, 3, 4]);
    let tests: Vec<usize> = tree.internal_nodes().iter().map(|l| l.0).collect();
    assert_eq!(tests, vec![0, 2]);
    assert_eq!(
        tree.get_node(2).split_info(),
        Some((1, 10, 2.0, 3, 4))
    );
    assert_eq!(tree.get_node(1).split_info(), None);
    assert_eq!(tree.get_node(0).leaf_value(), None);
}

#[test]
fn nodes_can_be_added_and_changed() {
    let mut tree = Tree::<f32, f64>::new(0.0, 2, 0.0, 2.0);
    let left = tree.add_node(Node::leaf(-1.0, 1, 1, 0.0, 1.0));
    let right = tree.add_node(Node::leaf(4.0, 1, 1, 0.0, 1.0));
    *tree.get_node_mut(0) = Node::internal(0, 2, 2.0, left, right, 0, 2, 0.0, 2.0);
    assert_eq!(tree.num_nodes(), 3);
    assert_eq!(tree.predict(|_| 2), -1.0);
    assert_eq!(tree.predict(|_| 3), 4.0);
    assert_eq!(Node::<f32, f64>::compute_leaf_weight(-6.0, 2.0, 1.0), 2.0);
}

#[test]
fn vector_trees_predict_all_outputs() {
    let mut tree = VectorTree::<f32, f64>::new(vec![0.0, 0.0], 4, vec![0.0; 2], vec![4.0; 2]);
    let left = tree.add_node(VectorNode::leaf(
        vec![1.0, 2.0],
        1,
        2,
        vec![0.0; 2],
        vec![2.0; 2],
    ));
    let right = tree.add_node(VectorNode::leaf(
        vec![3.0, 4.0],
        1,
        2,
        vec![0.0; 2],
        vec![2.0; 2],
    ));
    *tree.get_node_mut(0) = VectorNode::internal(
        0,
        7,
        1.5,
        left,
        right,
        0,
        4,
        vec![0.0; 2],
        vec![4.0; 2],
    );
    assert_eq!(tree.predict(|_| 7), vec![1.0, 2.0]);
    assert_eq!(tree.predict_raw(|_| 1.6), vec![3.0, 4.0]);
    assert_eq!(tree.max_depth(), 1);
    assert_eq!(tree.num_leaves(), 2);
    let mut predictions: Vec<f32> = vec![10.0; 4];
    tree.predict_batch_add(|sample, _| if sample == 0 { 0 } else { 9 }, 2, &mut predictions);
    assert_eq!(predictions, vec![11.0, 12.0, 13.0, 14.0]);
    tree.predict_batch_add_raw(&[1.6, 1.5], 1, &mut predictions);
    assert_eq!(predictions, vec![14.0, 16.0, 14.0, 16.0]);
    assert_eq!(tree.leaves().len(), 2);
    assert_eq!(tree.internal_nodes().len(), 1);
    assert_eq!(tree.nodes_mut().len(), tree.num_nodes());

    let ensemble = EnsembleTree::from(tree);
    assert_eq!(ensemble.predict_vector(|_| 8), vec![3.0, 4.0]);
    assert_eq!(ensemble.predict_raw_vector(|_| 0.0), vec![1.0, 2.0]);
    assert!(ensemble.try_as_scalar().is_none());
    assert_eq!(ensemble.as_vector().num_outputs(), 2);
}

#[test]
fn ensemble_trees_hand_on() {
    let ensemble = EnsembleTree::from(small_tree());
    assert_eq!(ensemble.max_depth(), 2);
    assert_eq!(ensemble.predict(|_| 0), 1.0);
    assert_eq!(ensemble.predict_raw(|_| 100.0), 3.0);
    assert_eq!(ensemble.as_scalar().num_leaves(), 3);
    assert!(ensemble.try_as_vector().is_none());
    let dataset = BinnedDataset::new(1, 2, &[7, 5]);
    let mut predictions: Vec<f32> = vec![1.0];
    ensemble.predict_batch_add(&dataset, &mut predictions);
    assert_eq!(predictions, vec![3.0]);
    ensemble.predict_batch_add_raw(&[0.0, 0.0], 2, &mut predictions);
    assert_eq!(predictions, vec![4.0]);
    let tests = ensemble.internal_nodes();
    assert_eq!(tests.len(), 2);
}
