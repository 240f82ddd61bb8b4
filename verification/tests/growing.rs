use tdigest::TDigest;
use treeboost::functions::Functions;
use treeboost::tree::dataset::BinnedDataset;
use treeboost::tree::grow::TreeGrower;
use treeboost::tree::partition::RowPartitioner;
use treeboost::tree::tree::Tree;
use treeboost::tree::vector_grow::VectorTreeGrower;

/// The functions of the numbers of type `f32`.
struct Floats;

impl Functions<f32> for Floats {
    fn count(&self, n: usize) -> f32 {
        n as f32
    }
    fn whole(&self, v: f32) -> usize {
        v as usize
    }
    fn round(&self, v: f32) -> f32 {
        v.round()
    }
    fn ceil(&self, v: f32) -> f32 {
        v.ceil()
    }
    fn root(&self, v: f32) -> f32 {
        v.sqrt()
    }
    fn ln(&self, v: f32) -> f32 {
        v.ln()
    }
    fn log2(&self, v: f32) -> f32 {
        v.log2()
    }
    fn exp(&self, v: f32) -> f32 {
        v.exp()
    }
    fn pow(&self, base: f32, exponent: f32) -> f32 {
        base.powf(exponent)
    }
    fn powi(&self, base: f32, exponent: i32) -> f32 {
        base.powi(exponent)
    }
    fn hundredths(&self, v: f32) -> i64 {
        (v * 100.0).round() as i64
    }
    fn quartiles(&self, list: &[f32]) -> (f32, f32, f32) {
        let mut digest = TDigest::new_with_size(100);
        for v in list {
            digest = digest.merge_unsorted(vec![*v as f64]);
        }
        (
            digest.estimate_quantile(0.25) as f32,
            digest.estimate_quantile(0.50) as f32,
            digest.estimate_quantile(0.75) as f32,
        )
    }
    fn show(&self, v: f32) -> String {
        format!("{}", v)
    }
    fn fixed(&self, v: f32, digits: usize) -> String {
        format!("{:.1$}", v, digits)
    }
    fn largest(&self) -> f32 {
        f32::MAX
    }
}

fn split_value(_feature: usize, bin: u8) -> f64 {
    bin as f64
}

fn wide_dataset(num_rows: usize, num_features: usize) -> BinnedDataset {
    let mut features = Vec::with_capacity(num_rows * num_features);
    for f in 0..num_features {
        for r in 0..num_rows {
            features.push(((r * 3 + f * 7) % 256) as u8);
        }
    }
    BinnedDataset::new(num_rows, num_features, &features)
}

fn narrow_dataset() -> BinnedDataset {
    let features: Vec<u8> = vec![
        0, 1, 2, 3, 4, 5, 6, 7, 8, 9, //
        0, 1, 2, 3, 4, 5, 6, 7, 8, 9,
    ];
    BinnedDataset::new(10, 2, &features)
}

#[test]
fn test_grow_single_leaf() {
    let dataset = wide_dataset(100, 3);
    let gradients: Vec<f32> = vec![0.0; 100]; // No gradient = no split benefit
    let hessians: Vec<f32> = vec![1.0; 100];

    let grower = TreeGrower::<f32>::new()
        .with_max_depth(3)
        .with_min_gain(1000.0); // Very high min gain = no splits

    let tree = grower.grow(&dataset, &gradients, &hessians, &Floats, &split_value);

    assert_eq!(tree.num_leaves(), 1);
    assert_eq!(tree.num_nodes(), 1);
}

#[test]
fn test_grow_with_splits() {
    let dataset = wide_dataset(1000, 5);

    // Create gradients that should encourage splitting
    let gradients: Vec<f32> = (0..1000)
        .map(|i| if i < 500 { -1.0 } else { 1.0 })
        .collect();
    let hessians: Vec<f32> = vec![1.0; 1000];

    let grower = TreeGrower::<f32>::new()
        .with_max_depth(4)
        .with_max_leaves(16)
        .with_min_samples_leaf(10)
        .with_learning_rate(0.1);

    let tree = grower.grow(&dataset, &gradients, &hessians, &Floats, &split_value);

    // Should have multiple nodes
    assert!(tree.num_nodes() > 1);
    assert!(tree.num_leaves() > 1);
    assert!(tree.max_depth() <= 4);
}

#[test]
fn test_max_depth_constraint() {
    let dataset = wide_dataset(1000, 3);
    let gradients: Vec<f32> = (0..1000).map(|i| (i as f32) * 0.01 - 5.0).collect();
    let hessians: Vec<f32> = vec![1.0; 1000];

    let grower = TreeGrower::<f32>::new()
        .with_max_depth(2)
        .with_max_leaves(100);

    let tree = grower.grow(&dataset, &gradients, &hessians, &Floats, &split_value);

    assert!(tree.max_depth() <= 2);
}

#[test]
fn test_max_leaves_constraint() {
    let dataset = wide_dataset(1000, 3);
    let gradients: Vec<f32> = (0..1000).map(|i| (i as f32) * 0.01 - 5.0).collect();
    let hessians: Vec<f32> = vec![1.0; 1000];

    let grower = TreeGrower::<f32>::new()
        .with_max_depth(10)
        .with_max_leaves(5);

    let tree = grower.grow(&dataset, &gradients, &hessians, &Floats, &split_value);

    assert!(tree.num_leaves() <= 5);
}

#[test]
fn test_vector_tree_grower_creation() {
    let grower = VectorTreeGrower::<f32>::new(3)
        .with_max_depth(4)
        .with_max_leaves(16)
        .with_lambda(0.5)
        .with_learning_rate(0.05);

    assert_eq!(grower.num_outputs(), 3);
}

#[test]
fn test_grow_simple_tree() {
    let dataset = narrow_dataset();
    let num_rows = dataset.num_rows();
    let num_outputs = 2;

    // Create gradients/hessians that encourage a split at feature 0, bin 4
    // First 5 samples: positive gradient for output 0, negative for output 1
    // Last 5 samples: negative gradient for output 0, positive for output 1
    let mut gradients = vec![0.0f32; num_rows * num_outputs];
    let hessians = vec![1.0f32; num_rows * num_outputs]; // Constant hessians

    for i in 0..5 {
        gradients[i * num_outputs] = 1.0; // output 0
        gradients[i * num_outputs + 1] = -1.0; // output 1
    }
    for i in 5..10 {
        gradients[i * num_outputs] = -1.0; // output 0
        gradients[i * num_outputs + 1] = 1.0; // output 1
    }

    let grower = VectorTreeGrower::<f32>::new(num_outputs)
        .with_max_depth(3)
        .with_min_gain(0.0)
        .with_learning_rate(1.0);

    let tree = grower.grow(&dataset, &gradients, &hessians, &split_value).unwrap();

    // Tree should have at least one split
    assert!(tree.num_nodes() > 1);
    assert_eq!(tree.num_outputs(), num_outputs);
}

#[test]
fn test_prediction() {
    let dataset = narrow_dataset();
    let num_rows = dataset.num_rows();
    let num_outputs = 2;

    let mut gradients = vec![0.0f32; num_rows * num_outputs];
    let hessians = vec![1.0f32; num_rows * num_outputs];

    for i in 0..5 {
        gradients[i * num_outputs] = 1.0;
        gradients[i * num_outputs + 1] = -1.0;
    }
    for i in 5..10 {
        gradients[i * num_outputs] = -1.0;
        gradients[i * num_outputs + 1] = 1.0;
    }

    let grower = VectorTreeGrower::<f32>::new(num_outputs)
        .with_max_depth(3)
        .with_learning_rate(1.0);

    let tree = grower.grow(&dataset, &gradients, &hessians, &split_value).unwrap();

    // Predictions should be vectors of length num_outputs
    let pred = tree.predict(|f| dataset.get_bin(0, f));
    assert_eq!(pred.len(), num_outputs);

    // Batch prediction
    let mut predictions = vec![0.0f32; num_rows * num_outputs];
    tree.predict_batch_add(
        |sample, feat| dataset.get_bin(sample, feat),
        num_rows,
        &mut predictions,
    );

    // All predictions should be updated
    assert!(predictions.iter().any(|&p| p != 0.0));
}

#[test]
fn a_clear_step_gives_one_split_with_exact_leaves() {
    let dataset = BinnedDataset::new(4, 1, &[0, 0, 9, 9]);
    let gradients: Vec<f32> = vec![-1.0, -1.0, 1.0, 1.0];
    let hessians: Vec<f32> = vec![1.0; 4];
    let grower = TreeGrower::<f32>::new()
        .with_min_samples_leaf(1)
        .with_lambda(0.0)
        .with_learning_rate(0.5);
    let tree: Tree<f32, f64> = grower.grow(&dataset, &gradients, &hessians, &Floats, &split_value);
    assert_eq!(tree.num_nodes(), 3);
    assert_eq!(tree.predict_all(&dataset), vec![0.5, 0.5, -0.5, -0.5]);
    assert_eq!(tree.root().split_info(), Some((0, 0, 0.0, 1, 2)));
}

#[test]
fn a_grown_tree_has_twice_its_leaves_less_one_nodes() {
    let dataset = wide_dataset(500, 3);
    let gradients: Vec<f32> = (0..500).map(|i| (i as f32) * 0.02 - 5.0).collect();
    let hessians: Vec<f32> = vec![1.0; 500];
    let grower = TreeGrower::<f32>::new().with_max_depth(4).with_max_leaves(7);
    let tree: Tree<f32, f64> = grower.grow(&dataset, &gradients, &hessians, &Floats, &split_value);
    assert_eq!(tree.num_nodes(), 2 * tree.num_leaves() - 1);
    let rows: usize = tree.leaves().iter().map(|l| l.1.num_samples).sum();
    assert_eq!(rows, 500);
}

#[test]
fn rows_are_divided_in_their_order() {
    let dataset = BinnedDataset::new(5, 1, &[4, 1, 9, 2, 7]);
    let grower = TreeGrower::<f32>::new();
    let (left, right) = grower.partition_rows(&dataset, &[4, 3, 2, 1, 0], 0, 4);
    assert_eq!(left, vec![3, 1, 0]);
    assert_eq!(right, vec![4, 2]);

    let mut partitioner = RowPartitioner::new(vec![4, 3, 2, 1, 0]);
    let mid = partitioner.partition_in_place(&dataset, 0, 5, 0, 4);
    assert_eq!(mid, 3);
    let mut first = partitioner.get_rows(0, mid).to_vec();
    first.sort();
    assert_eq!(first, vec![0, 1, 3]);
    let mut second = partitioner.get_rows(mid, 5).to_vec();
    second.sort();
    assert_eq!(second, vec![2, 4]);
}

#[test]
fn vector_growth_from_some_rows_only() {
    let dataset = narrow_dataset();
    let mut gradients = vec![0.0f32; 20];
    let hessians = vec![1.0f32; 20];
    for i in 0..10 {
        gradients[2 * i] = if i < 5 { 1.0 } else { -1.0 };
        gradients[2 * i + 1] = if i < 5 { -1.0 } else { 1.0 };
    }
    let grower = VectorTreeGrower::<f32>::new(2)
        .with_max_depth(1)
        .with_min_samples_leaf(1)
        .with_lambda(0.0)
        .with_learning_rate(1.0);
    let tree = grower
        .grow_with_indices(&dataset, &gradients, &hessians, &[0, 1, 8, 9], &split_value)
        .unwrap();
    assert_eq!(tree.num_leaves(), 2);
    assert_eq!(tree.predict(|f| dataset.get_bin(0, f)), vec![-1.0, 1.0]);
    assert_eq!(tree.predict(|f| dataset.get_bin(9, f)), vec![1.0, -1.0]);
    let rows: usize = tree.leaves().iter().map(|l| l.1.num_samples).sum();
    assert_eq!(rows, 4);
}

#[test]
fn leaf_values_are_weighed_by_their_sums() {
    let dataset = wide_dataset(300, 3);
    let gradients: Vec<f32> = (0..300).map(|i| ((i * 37) % 101) as f32 * 0.03 - 1.4).collect();
    let hessians: Vec<f32> = (0..300).map(|i| 0.5 + (i % 4) as f32 * 0.25).collect();
    let grower = TreeGrower::<f32>::new()
        .with_max_depth(4)
        .with_max_leaves(9)
        .with_min_samples_leaf(5)
        .with_lambda(1.5)
        .with_learning_rate(0.3);
    let tree: Tree<f32, f64> = grower.grow(&dataset, &gradients, &hessians, &Floats, &split_value);
    assert!(tree.num_leaves() > 2);
    for (_, leaf) in tree.leaves() {
        let expected = -leaf.sum_gradients / (leaf.sum_hessians + 1.5) * 0.3;
        assert_eq!(leaf.leaf_value(), Some(expected));
    }
    assert_eq!(tree.root().sum_gradients, gradients.iter().sum::<f32>());
    assert_eq!(tree.root().sum_hessians, hessians.iter().sum::<f32>());
    for (_, node) in tree.internal_nodes() {
        let (_, _, _, left, right) = node.split_info().unwrap();
        let (left, right) = (tree.get_node(left), tree.get_node(right));
        assert_eq!(right.sum_gradients, node.sum_gradients - left.sum_gradients);
        assert_eq!(right.sum_hessians, node.sum_hessians - left.sum_hessians);
    }
}

#[test]
fn vector_leaf_values_are_weighed_output_by_output() {
    let dataset = narrow_dataset();
    let gradients: Vec<f32> = (0..20).map(|i| ((i * 7) % 11) as f32 - 4.5).collect();
    let hessians: Vec<f32> = (0..20).map(|i| 1.0 + (i % 3) as f32 * 0.5).collect();
    let grower = VectorTreeGrower::<f32>::new(2)
        .with_max_depth(3)
        .with_min_samples_leaf(1)
        .with_lambda(0.5)
        .with_learning_rate(0.25);
    let tree = grower.grow(&dataset, &gradients, &hessians, &split_value).unwrap();
    assert!(tree.num_leaves() > 1);
    for (_, leaf) in tree.leaves() {
        let values = leaf.leaf_values().unwrap();
        assert_eq!(values.len(), 2);
        for k in 0..2 {
            let expected = -leaf.sum_gradients()[k] / (leaf.sum_hessians()[k] + 0.5) * 0.25;
            assert_eq!(values[k], expected);
        }
    }
    let mut sums = [0.0f32; 2];
    for row in 0..10 {
        sums[0] += gradients[2 * row];
        sums[1] += gradients[2 * row + 1];
    }
    assert_eq!(tree.root().sum_gradients(), &sums);
}
