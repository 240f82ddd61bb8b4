//! The nodes of a tree.

use crate::number::Number;
use crate::tree::shape::Fork;
use crate::tree::split::leaf_weight;
use vstd::prelude::*;

verus! {

/// What a node does.
#[derive(Debug, Clone, Copy)]
pub enum NodeType<V, T> {
    /// It tests a feature.
    Internal {
        /// The feature.
        feature_idx: usize,
        /// Rows whose bin is at most this go left.
        bin_threshold: u8,
        /// Rows whose value is at most this go left.
        split_value: T,
        /// The place of the left child.
        left_child: usize,
        /// The place of the right child.
        right_child: usize,
    },
    /// It predicts a value.
    Leaf {
        /// The value.
        value: V,
    },
}

/// A node of a tree: `V` is the type of what is predicted, `T` that of what is
/// tested.
#[derive(Debug, Clone, Copy)]
pub struct Node<V, T> {
    /// What the node does.
    pub node_type: NodeType<V, T>,
    /// The number of steps from the root.
    pub depth: usize,
    /// The number of training rows at the node.
    pub num_samples: usize,
    /// The sum of their gradients.
    pub sum_gradients: V,
    /// The sum of their hessians.
    pub sum_hessians: V,
}

impl<V, T> Node<V, T> {
    /// The node without what it holds.
    pub open spec fn fork(self) -> Fork {
        match self.node_type {
            NodeType::Internal { left_child, right_child, .. } => Fork::Branch {
                left: left_child as int,
                right: right_child as int,
            },
            NodeType::Leaf { .. } => Fork::End,
        }
    }
}

impl<V: Copy, T: Copy> Node<V, T> {
    /// A leaf.
    pub fn leaf(
        value: V,
        depth: usize,
        num_samples: usize,
        sum_gradients: V,
        sum_hessians: V,
    ) -> (r: Self)
        ensures
            r == (Node {
                node_type: NodeType::<V, T>::Leaf { value },
                depth,
                num_samples,
                sum_gradients,
                sum_hessians,
            }),
    {
        Node {
            node_type: NodeType::Leaf { value },
            depth,
            num_samples,
            sum_gradients,
            sum_hessians,
        }
    }

    /// A node that tests a feature.
    pub fn internal(
        feature_idx: usize,
        bin_threshold: u8,
        split_value: T,
        left_child: usize,
        right_child: usize,
        depth: usize,
        num_samples: usize,
        sum_gradients: V,
        sum_hessians: V,
    ) -> (r: Self)
        ensures
            r == (Node {
                node_type: NodeType::<V, T>::Internal {
                    feature_idx,
                    bin_threshold,
                    split_value,
                    left_child,
                    right_child,
                },
                depth,
                num_samples,
                sum_gradients,
                sum_hessians,
            }),
    {
        Node {
            node_type: NodeType::Internal {
                feature_idx,
                bin_threshold,
                split_value,
                left_child,
                right_child,
            },
            depth,
            num_samples,
            sum_gradients,
            sum_hessians,
        }
    }

    /// Whether this is a leaf.
    pub fn is_leaf(&self) -> (r: bool)
        ensures
            r == (self.fork() is End),
    {
        match self.node_type {
            NodeType::Leaf { .. } => true,
            NodeType::Internal { .. } => false,
        }
    }

    /// The value of a leaf.
    pub fn leaf_value(&self) -> (r: Option<V>)
        ensures
            match self.node_type {
                NodeType::Leaf { value } => r == Some(value),
                NodeType::Internal { .. } => r is None,
            },
    {
        match self.node_type {
            NodeType::Leaf { value } => Some(value),
            NodeType::Internal { .. } => None,
        }
    }

    /// The test of a node that is no leaf: the feature, the bin threshold, the
    /// split value and the two children.
    pub fn split_info(&self) -> (r: Option<(usize, u8, T, usize, usize)>)
        ensures
            match self.node_type {
                NodeType::Internal {
                    feature_idx,
                    bin_threshold,
                    split_value,
                    left_child,
                    right_child,
                } => r == Some((feature_idx, bin_threshold, split_value, left_child, right_child)),
                NodeType::Leaf { .. } => r is None,
            },
    {
        match self.node_type {
            NodeType::Internal {
                feature_idx,
                bin_threshold,
                split_value,
                left_child,
                right_child,
            } => Some((feature_idx, bin_threshold, split_value, left_child, right_child)),
            NodeType::Leaf { .. } => None,
        }
    }
}

impl<V: Number, T: Copy> Node<V, T> {
    /// The best value of a leaf with the given sums.
    pub fn compute_leaf_weight(sum_gradients: V, sum_hessians: V, lambda: V) -> (r: V)
        requires
            crate::number::arithmetic::<V>(),
        ensures
            r == crate::tree::split::weight(sum_gradients, sum_hessians, lambda),
    {
        leaf_weight(sum_gradients, sum_hessians, lambda)
    }
}

} // verus!
