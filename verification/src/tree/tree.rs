//! A decision tree with one value per leaf.

use crate::number::Number;
use crate::tree::dataset::BinnedDataset;
use crate::tree::node::{Node, NodeType};
use crate::tree::shape::Fork;
use vstd::prelude::*;

verus! {

/// A decision tree; node 0 is the root.
#[derive(Debug, Clone)]
pub struct Tree<V, T> {
    nodes: Vec<Node<V, T>>,
}

impl<V, T> View for Tree<V, T> {
    type V = Seq<Node<V, T>>;

    closed spec fn view(&self) -> Seq<Node<V, T>> {
        self.nodes@
    }
}

/// The shape of a list of nodes.
pub open spec fn shape_of<V, T>(nodes: Seq<Node<V, T>>) -> Seq<Fork> {
    Seq::new(nodes.len(), |i: int| nodes[i].fork())
}

/// The value of a leaf.
pub open spec fn value_at<V, T>(nodes: Seq<Node<V, T>>, i: int) -> V {
    nodes[i].node_type->value
}

/// The feature that node `i` tests.
pub open spec fn feature_at<V, T>(nodes: Seq<Node<V, T>>, i: int) -> usize {
    nodes[i].node_type->feature_idx
}

/// The bin threshold of node `i`.
pub open spec fn threshold_at<V, T>(nodes: Seq<Node<V, T>>, i: int) -> u8 {
    nodes[i].node_type->bin_threshold
}

/// The split value of node `i`.
pub open spec fn split_value_at<V, T>(nodes: Seq<Node<V, T>>, i: int) -> T {
    nodes[i].node_type->split_value
}

/// No node tests a feature that does not exist.
pub open spec fn tests_within<V, T>(nodes: Seq<Node<V, T>>, num_features: nat) -> bool {
    forall|i: int|
        0 <= i < nodes.len() && (#[trigger] nodes[i]).fork() is Branch ==> feature_at(nodes, i)
            < num_features
}

/// The outcomes that tests may have on bins given by a function: bins up to the
/// threshold lead to the left.
pub open spec fn bin_tests<V, T, F: Fn(usize) -> u8>(nodes: Seq<Node<V, T>>, get_bin: F) -> spec_fn(
    int,
    bool,
) -> bool {
    |i: int, b: bool|
        exists|bin: u8|
            #[trigger] call_ensures(get_bin, (feature_at(nodes, i),), bin) && b == (bin
                <= threshold_at(nodes, i))
}

/// The outcomes that tests may have on values given by a function: values up
/// to the split value lead to the left.
pub open spec fn value_tests<V, T: PartialOrd, F: Fn(usize) -> T>(
    nodes: Seq<Node<V, T>>,
    get_value: F,
) -> spec_fn(int, bool) -> bool {
    |i: int, b: bool|
        exists|v: T|
            #[trigger] call_ensures(get_value, (feature_at(nodes, i),), v) && call_ensures(
                T::le,
                (&v, &split_value_at(nodes, i)),
                b,
            )
}

/// The tests that lead to the left for a row of binned data.
pub open spec fn row_tests<V, T>(
    nodes: Seq<Node<V, T>>,
    columns: Seq<Seq<u8>>,
    row: int,
) -> spec_fn(int) -> bool {
    |i: int| columns[feature_at(nodes, i) as int][row] <= threshold_at(nodes, i)
}

/// The outcomes that tests may have for a row of values, stored row by row.
pub open spec fn raw_row_tests<V, T: PartialOrd>(
    nodes: Seq<Node<V, T>>,
    features: Seq<T>,
    num_features: int,
    row: int,
) -> spec_fn(int, bool) -> bool {
    |i: int, b: bool|
        call_ensures(
            T::le,
            (
                &features[row * num_features + feature_at(nodes, i)],
                &split_value_at(nodes, i),
            ),
            b,
        )
}

/// What a tree predicts for a row of binned data.
pub open spec fn row_value<V, T>(nodes: Seq<Node<V, T>>, columns: Seq<Seq<u8>>, row: int) -> V {
    value_at(
        nodes,
        crate::tree::shape::leaf_reached(shape_of(nodes), row_tests(nodes, columns, row)),
    )
}

/// `r` is the value of a leaf at which the tests may lead.
pub open spec fn leads_to<V, T>(
    nodes: Seq<Node<V, T>>,
    goes: spec_fn(int, bool) -> bool,
    r: V,
) -> bool {
    exists|leaf: int, n: nat|
        #[trigger] crate::tree::shape::arrives(shape_of(nodes), goes, 0, leaf, n) && r == value_at(
            nodes,
            leaf,
        )
}

/// The greatest depth of a list of nodes.
pub open spec fn deepest<V, T>(nodes: Seq<Node<V, T>>) -> nat
    decreases nodes.len(),
{
    if nodes.len() == 0 {
        0
    } else {
        let before = deepest(nodes.drop_last());
        if nodes.last().depth > before {
            nodes.last().depth as nat
        } else {
            before
        }
    }
}

/// The places of the nodes for which `pick` holds, in order.
pub open spec fn places<V, T>(
    nodes: Seq<Node<V, T>>,
    pick: spec_fn(Node<V, T>) -> bool,
) -> Seq<int> {
    Seq::new(nodes.len(), |i: int| i).filter(|i: int| pick(nodes[i]))
}

impl<V, T> Tree<V, T> {
    /// The shape of the tree.
    pub open spec fn shape(&self) -> Seq<Fork> {
        shape_of(self@)
    }

    /// Every descent from the root ends at a leaf.
    pub open spec fn descends(&self) -> bool {
        crate::tree::shape::descends(self.shape())
    }
}

impl<V: Copy, T: Copy> Tree<V, T> {
    /// A tree that is a single leaf.
    pub fn new(root_value: V, num_samples: usize, sum_g: V, sum_h: V) -> (r: Self)
        ensures
            r@ == seq![
                Node {
                    node_type: NodeType::<V, T>::Leaf { value: root_value },
                    depth: 0,
                    num_samples,
                    sum_gradients: sum_g,
                    sum_hessians: sum_h,
                },
            ],
            r.descends(),
    {
        let mut nodes: Vec<Node<V, T>> = Vec::new();
        nodes.push(Node::leaf(root_value, 0, num_samples, sum_g, sum_h));
        let r = Tree { nodes };
        assert(crate::tree::shape::grounded(r.shape(), 0, 0));
        r
    }

    /// A tree from its nodes.
    pub fn from_nodes(nodes: Vec<Node<V, T>>) -> (r: Self)
        ensures
            r@ == nodes@,
    {
        Tree { nodes }
    }

    /// The root.
    pub fn root(&self) -> (r: &Node<V, T>)
        requires
            self@.len() > 0,
        ensures
            *r == self@[0],
    {
        &self.nodes[0]
    }

    /// A node by its place.
    pub fn get_node(&self, idx: usize) -> (r: &Node<V, T>)
        requires
            idx < self@.len(),
        ensures
            *r == self@[idx as int],
    {
        &self.nodes[idx]
    }

    /// A node by its place, for changing.
    pub fn get_node_mut(&mut self, idx: usize) -> (r: &mut Node<V, T>)
        requires
            idx < old(self)@.len(),
        ensures
            *r == old(self)@[idx as int],
            final(self)@ == old(self)@.update(idx as int, *final(r)),
    {
        &mut self.nodes[idx]
    }

    /// Adds a node and returns its place.
    pub fn add_node(&mut self, node: Node<V, T>) -> (r: usize)
        ensures
            r == old(self)@.len(),
            final(self)@ == old(self)@.push(node),
    {
        let idx: usize = self.nodes.len();
        self.nodes.push(node);
        idx
    }

    /// The number of nodes.
    pub fn num_nodes(&self) -> (r: usize)
        ensures
            r == self@.len(),
    {
        self.nodes.len()
    }

    /// The number of leaves.
    pub fn num_leaves(&self) -> (r: usize)
        ensures
            r == crate::tree::shape::leaf_count(self.shape()),
    {
        let mut count: usize = 0;
        let mut i: usize = 0;
        let ghost shape = self.shape();
        assert(shape.take(0) =~= Seq::<Fork>::empty());
        while i < self.nodes.len()
            invariant
                i <= self.nodes.len(),
                shape == shape_of(self.nodes@),
                count == crate::tree::shape::leaf_count(shape.take(i as int)),
                count <= i,
            decreases self.nodes.len() - i,
        {
            assert(shape.take(i + 1).drop_last() =~= shape.take(i as int));
            if self.nodes[i].is_leaf() {
                count = count + 1;
            }
            i = i + 1;
        }
        assert(shape.take(i as int) =~= shape);
        count
    }

    /// The greatest depth of a node.
    pub fn max_depth(&self) -> (r: usize)
        ensures
            r == deepest(self@),
    {
        let mut max: usize = 0;
        let mut i: usize = 0;
        assert(self.nodes@.take(0) =~= Seq::<Node<V, T>>::empty());
        while i < self.nodes.len()
            invariant
                i <= self.nodes.len(),
                max == deepest(self.nodes@.take(i as int)),
            decreases self.nodes.len() - i,
        {
            assert(self.nodes@.take(i + 1).drop_last() =~= self.nodes@.take(i as int));
            if self.nodes[i].depth > max {
                max = self.nodes[i].depth;
            }
            i = i + 1;
        }
        assert(self.nodes@.take(i as int) =~= self.nodes@);
        max
    }

    /// The value for bins given by a function.
    pub fn predict<F: Fn(usize) -> u8>(&self, get_bin: F) -> (r: V)
        requires
            self.descends(),
            forall|i: int|
                0 <= i < self@.len() && (#[trigger] self@[i]).fork() is Branch ==> call_requires(
                    get_bin,
                    (feature_at(self@, i),),
                ),
        ensures
            leads_to(self@, bin_tests(self@, get_bin), r),
    {
        let ghost shape = self.shape();
        let ghost goes = bin_tests(self@, get_bin);
        let ghost start = crate::tree::shape::height(shape);
        let ghost mut left_over: nat = start;
        let mut node_idx: usize = 0;
        loop
            invariant
                self@ == self.nodes@,
                shape == self.shape(),
                goes == bin_tests(self@, get_bin),
                forall|i: int|
                    0 <= i < self@.len() && (#[trigger] self@[i]).fork() is Branch
                        ==> call_requires(get_bin, (feature_at(self@, i),)),
                crate::tree::shape::grounded(shape, node_idx as int, left_over),
                forall|leaf: int|
                    #[trigger] crate::tree::shape::arrives(
                        shape,
                        goes,
                        node_idx as int,
                        leaf,
                        left_over,
                    ) ==> crate::tree::shape::arrives(shape, goes, 0, leaf, start),
            decreases left_over,
        {
            let ghost here = node_idx as int;
            assert(shape[here] == self@[here].fork());
            match self.nodes[node_idx].node_type {
                NodeType::Leaf { value } => {
                    assert(crate::tree::shape::arrives(shape, goes, here, here, left_over));
                    return value;
                },
                NodeType::Internal { feature_idx, bin_threshold, left_child, right_child, .. } => {
                    let bin: u8 = get_bin(feature_idx);
                    proof {
                        assert(goes(here, bin <= bin_threshold));
                        crate::tree::shape::lemma_grounded_step(shape, here, left_over);
                        let next: int = if bin <= bin_threshold {
                            left_child as int
                        } else {
                            right_child as int
                        };
                        let fewer = (left_over - 1) as nat;
                        assert forall|leaf: int|
                            #[trigger] crate::tree::shape::arrives(
                                shape,
                                goes,
                                next,
                                leaf,
                                fewer,
                            ) implies crate::tree::shape::arrives(shape, goes, 0, leaf, start) by {
                            assert(crate::tree::shape::arrives(
                                shape,
                                goes,
                                here,
                                leaf,
                                left_over,
                            ));
                        }
                        left_over = fewer;
                    }
                    if bin <= bin_threshold {
                        node_idx = left_child;
                    } else {
                        node_idx = right_child;
                    }
                },
            }
        }
    }

    /// The value for feature values given by a function.
    pub fn predict_raw<F: Fn(usize) -> T>(&self, get_value: F) -> (r: V) where T: PartialOrd
        requires
            self.descends(),
            forall|i: int|
                0 <= i < self@.len() && (#[trigger] self@[i]).fork() is Branch ==> call_requires(
                    get_value,
                    (feature_at(self@, i),),
                ),
        ensures
            leads_to(self@, value_tests(self@, get_value), r),
    {
        let ghost shape = self.shape();
        let ghost goes = value_tests(self@, get_value);
        let ghost start = crate::tree::shape::height(shape);
        let ghost mut left_over: nat = start;
        let mut node_idx: usize = 0;
        loop
            invariant
                self@ == self.nodes@,
                shape == self.shape(),
                goes == value_tests(self@, get_value),
                forall|i: int|
                    0 <= i < self@.len() && (#[trigger] self@[i]).fork() is Branch
                        ==> call_requires(get_value, (feature_at(self@, i),)),
                crate::tree::shape::grounded(shape, node_idx as int, left_over),
                forall|leaf: int|
                    #[trigger] crate::tree::shape::arrives(
                        shape,
                        goes,
                        node_idx as int,
                        leaf,
                        left_over,
                    ) ==> crate::tree::shape::arrives(shape, goes, 0, leaf, start),
            decreases left_over,
        {
            let ghost here = node_idx as int;
            assert(shape[here] == self@[here].fork());
            match self.nodes[node_idx].node_type {
                NodeType::Leaf { value } => {
                    assert(crate::tree::shape::arrives(shape, goes, here, here, left_over));
                    return value;
                },
                NodeType::Internal { feature_idx, split_value, left_child, right_child, .. } => {
                    let value = get_value(feature_idx);
                    let to_left: bool = value <= split_value;
                    proof {
                        assert(goes(here, to_left));
                        crate::tree::shape::lemma_grounded_step(shape, here, left_over);
                        let next: int = if to_left {
                            left_child as int
                        } else {
                            right_child as int
                        };
                        let fewer = (left_over - 1) as nat;
                        assert forall|leaf: int|
                            #[trigger] crate::tree::shape::arrives(
                                shape,
                                goes,
                                next,
                                leaf,
                                fewer,
                            ) implies crate::tree::shape::arrives(shape, goes, 0, leaf, start) by {
                            assert(crate::tree::shape::arrives(
                                shape,
                                goes,
                                here,
                                leaf,
                                left_over,
                            ));
                        }
                        left_over = fewer;
                    }
                    if to_left {
                        node_idx = left_child;
                    } else {
                        node_idx = right_child;
                    }
                },
            }
        }
    }

    /// The value for a row of a dataset.
    pub fn predict_row(&self, dataset: &BinnedDataset, row_idx: usize) -> (r: V)
        requires
            self.descends(),
            tests_within(self@, dataset@.len()),
            row_idx < dataset.rows(),
        ensures
            r == row_value(self@, dataset@, row_idx as int),
    {
        self.predict_row_inner(dataset, row_idx)
    }

    /// The value for a row of a dataset.
    fn predict_row_inner(&self, dataset: &BinnedDataset, row_idx: usize) -> (r: V)
        requires
            self.descends(),
            tests_within(self@, dataset@.len()),
            row_idx < dataset.rows(),
        ensures
            r == row_value(self@, dataset@, row_idx as int),
    {
        let ghost shape = self.shape();
        let ghost left_at = row_tests(self@, dataset@, row_idx as int);
        let ghost mut left_over: nat = crate::tree::shape::height(shape);
        let mut node_idx: usize = 0;
        loop
            invariant
                self@ == self.nodes@,
                shape == self.shape(),
                tests_within(self@, dataset@.len()),
                row_idx < dataset.rows(),
                left_at == row_tests(self@, dataset@, row_idx as int),
                crate::tree::shape::grounded(shape, node_idx as int, left_over),
                crate::tree::shape::leaf_from(shape, left_at, node_idx as int, left_over)
                    == crate::tree::shape::leaf_reached(shape, left_at),
            decreases left_over,
        {
            let ghost here = node_idx as int;
            assert(shape[here] == self@[here].fork());
            match self.nodes[node_idx].node_type {
                NodeType::Leaf { value } => {
                    return value;
                },
                NodeType::Internal { feature_idx, bin_threshold, left_child, right_child, .. } => {
                    let bin: u8 = dataset.get_bin(row_idx, feature_idx);
                    proof {
                        crate::tree::shape::lemma_grounded_step(shape, here, left_over);
                        left_over = (left_over - 1) as nat;
                    }
                    if bin <= bin_threshold {
                        node_idx = left_child;
                    } else {
                        node_idx = right_child;
                    }
                },
            }
        }
    }

    /// The values for all rows of a dataset.
    pub fn predict_all(&self, dataset: &BinnedDataset) -> (r: Vec<V>)
        requires
            self.descends(),
            tests_within(self@, dataset@.len()),
        ensures
            r.len() == dataset.rows(),
            forall|row: int|
                0 <= row < r.len() ==> #[trigger] r[row] == row_value(self@, dataset@, row),
    {
        let num_rows: usize = dataset.num_rows();
        let mut values: Vec<V> = Vec::new();
        let mut row_idx: usize = 0;
        while row_idx < num_rows
            invariant
                self.descends(),
                tests_within(self@, dataset@.len()),
                num_rows == dataset.rows(),
                row_idx <= num_rows,
                values.len() == row_idx,
                forall|row: int|
                    0 <= row < values.len() ==> #[trigger] values[row] == row_value(
                        self@,
                        dataset@,
                        row,
                    ),
            decreases num_rows - row_idx,
        {
            values.push(self.predict_row(dataset, row_idx));
            row_idx = row_idx + 1;
        }
        values
    }

    /// The nodes.
    pub fn nodes(&self) -> (r: &[Node<V, T>])
        ensures
            r@ == self@,
    {
        self.nodes.as_slice()
    }
}

impl<V: Number, T: Copy> Tree<V, T> {
    /// Adds the value for each row of a dataset to its prediction.
    pub fn predict_batch_add(&self, dataset: &BinnedDataset, predictions: &mut [V])
        requires
            crate::number::arithmetic::<V>(),
            self.descends(),
            tests_within(self@, dataset@.len()),
            old(predictions).len() <= dataset.rows(),
        ensures
            final(predictions).len() == old(predictions).len(),
            forall|row: int|
                0 <= row < old(predictions).len() ==> #[trigger] final(predictions)[row]
                    == crate::number::plus(
                    old(predictions)[row],
                    row_value(self@, dataset@, row),
                ),
    {
        let num_rows: usize = predictions.len();
        let ghost start = predictions@;
        let mut row_idx: usize = 0;
        while row_idx < num_rows
            invariant
                crate::number::arithmetic::<V>(),
                self.descends(),
                tests_within(self@, dataset@.len()),
                start.len() == num_rows <= dataset.rows(),
                predictions.len() == num_rows,
                row_idx <= num_rows,
                forall|row: int|
                    0 <= row < num_rows ==> #[trigger] predictions[row] == (if row < row_idx {
                        crate::number::plus(start[row], row_value(self@, dataset@, row))
                    } else {
                        start[row]
                    }),
            decreases num_rows - row_idx,
        {
            let value = self.predict_row_inner(dataset, row_idx);
            let before = predictions[row_idx];
            predictions[row_idx] = before + value;
            row_idx = row_idx + 1;
        }
    }

    /// Adds the value for each row of a dataset to its prediction, moving all
    /// rows down the tree level by level.
    pub fn predict_batch_add_columnar(&self, dataset: &BinnedDataset, predictions: &mut [V])
        requires
            crate::number::arithmetic::<V>(),
            self.descends(),
            tests_within(self@, dataset@.len()),
            old(predictions).len() <= dataset.rows(),
        ensures
            final(predictions).len() == old(predictions).len(),
            forall|row: int|
                0 <= row < old(predictions).len() ==> #[trigger] final(predictions)[row]
                    == crate::number::plus(
                    old(predictions)[row],
                    row_value(self@, dataset@, row),
                ),
    {
        let num_rows: usize = predictions.len();
        let ghost start = predictions@;
        let ghost shape = self.shape();
        let ghost mut left_over: nat = crate::tree::shape::height(shape);
        let mut node_indices: Vec<Option<usize>> = Vec::new();
        let mut filled: usize = 0;
        while filled < num_rows
            invariant
                filled <= num_rows,
                node_indices.len() == filled,
                forall|row: int| 0 <= row < filled ==> #[trigger] node_indices[row] == Some(0usize),
            decreases num_rows - filled,
        {
            node_indices.push(Some(0));
            filled = filled + 1;
        }
        let mut active_count: usize = num_rows;
        while active_count > 0
            invariant
                crate::number::arithmetic::<V>(),
                self@ == self.nodes@,
                shape == self.shape(),
                tests_within(self@, dataset@.len()),
                start.len() == num_rows <= dataset.rows(),
                predictions.len() == num_rows,
                node_indices.len() == num_rows,
                active_count <= num_rows,
                active_count == 0 ==> forall|row: int|
                    0 <= row < num_rows ==> (#[trigger] node_indices[row]) is None,
                forall|row: int|
                    #![trigger node_indices[row]]
                    #![trigger predictions[row]]
                    0 <= row < num_rows ==> self.progress(
                        dataset@,
                        start[row],
                        predictions[row],
                        node_indices[row],
                        row,
                        left_over,
                    ),
            decreases
                    left_over + (if active_count > 0 {
                        1int
                    } else {
                        0int
                    }),
        {
            active_count = 0;
            let ghost fewer = if left_over > 0 {
                (left_over - 1) as nat
            } else {
                0
            };
            let mut row_idx: usize = 0;
            while row_idx < num_rows
                invariant
                    crate::number::arithmetic::<V>(),
                    self@ == self.nodes@,
                    shape == self.shape(),
                    tests_within(self@, dataset@.len()),
                    start.len() == num_rows <= dataset.rows(),
                    predictions.len() == num_rows,
                    node_indices.len() == num_rows,
                    row_idx <= num_rows,
                    active_count <= row_idx,
                    fewer == (if left_over > 0 {
                        (left_over - 1) as nat
                    } else {
                        0
                    }),
                    active_count > 0 ==> left_over > 0,
                    active_count == 0 ==> forall|row: int|
                        0 <= row < row_idx ==> (#[trigger] node_indices[row]) is None,
                    forall|row: int|
                        #![trigger node_indices[row]]
                        #![trigger predictions[row]]
                        0 <= row < num_rows ==> self.progress(
                            dataset@,
                            start[row],
                            predictions[row],
                            node_indices[row],
                            row,
                            if row < row_idx {
                                fewer
                            } else {
                                left_over
                            },
                        ),
                decreases num_rows - row_idx,
            {
                let ghost had = node_indices@;
                let ghost left_at = row_tests(self@, dataset@, row_idx as int);
                match node_indices[row_idx] {
                    None => {},
                    Some(node_idx) => {
                        let ghost here = node_idx as int;
                        assert(shape[here] == self@[here].fork());
                        match self.nodes[node_idx].node_type {
                            NodeType::Leaf { value } => {
                                let before = predictions[row_idx];
                                predictions[row_idx] = before + value;
                                node_indices.set(row_idx, None);
                            },
                            NodeType::Internal {
                                feature_idx,
                                bin_threshold,
                                left_child,
                                right_child,
                                ..
                            } => {
                                proof {
                                    crate::tree::shape::lemma_grounded_step(shape, here, left_over);
                                }
                                let bin: u8 = dataset.get_bin(row_idx, feature_idx);
                                if bin <= bin_threshold {
                                    node_indices.set(row_idx, Some(left_child));
                                } else {
                                    node_indices.set(row_idx, Some(right_child));
                                }
                                active_count = active_count + 1;
                            },
                        }
                    },
                }
                row_idx = row_idx + 1;
            }
            proof {
                left_over = fewer;
            }
        }
    }

    /// How far a row has come: it is at a node from which it goes on to its
    /// leaf, or it is done and its value has been added.
    spec fn progress(
        &self,
        columns: Seq<Seq<u8>>,
        before: V,
        now: V,
        at: Option<usize>,
        row: int,
        n: nat,
    ) -> bool {
        let left_at = row_tests(self@, columns, row);
        match at {
            Some(i) => {
                &&& now == before
                &&& crate::tree::shape::grounded(self.shape(), i as int, n)
                &&& crate::tree::shape::leaf_from(self.shape(), left_at, i as int, n)
                    == crate::tree::shape::leaf_reached(self.shape(), left_at)
            },
            None => now == crate::number::plus(before, row_value(self@, columns, row)),
        }
    }

    /// Adds the value for each row of feature values, stored row by row, to its
    /// prediction.
    pub fn predict_batch_add_raw(&self, features: &[T], num_features: usize, predictions: &mut [V])
        where T: PartialOrd
        requires
            crate::number::arithmetic::<V>(),
            self.descends(),
            tests_within(self@, num_features as nat),
            old(predictions).len() * num_features <= features.len(),
        ensures
            final(predictions).len() == old(predictions).len(),
            forall|row: int|
                0 <= row < old(predictions).len() ==> adds_leaf(
                    self@,
                    raw_row_tests(self@, features@, num_features as int, row),
                    old(predictions)[row],
                    #[trigger] final(predictions)[row],
                ),
    {
        let num_rows: usize = predictions.len();
        let ghost start = predictions@;
        let mut row_idx: usize = 0;
        while row_idx < num_rows
            invariant
                crate::number::arithmetic::<V>(),
                self.descends(),
                tests_within(self@, num_features as nat),
                num_rows * num_features <= features.len(),
                start.len() == num_rows,
                predictions.len() == num_rows,
                row_idx <= num_rows,
                forall|row: int|
                    0 <= row < row_idx ==> adds_leaf(
                        self@,
                        raw_row_tests(self@, features@, num_features as int, row),
                        start[row],
                        #[trigger] predictions[row],
                    ),
                forall|row: int|
                    row_idx <= row < num_rows ==> #[trigger] predictions[row] == start[row],
            decreases num_rows - row_idx,
        {
            proof {
                assert((row_idx + 1) * num_features <= num_rows * num_features)
                    by (nonlinear_arith)
                    requires
                        row_idx < num_rows,
                        0 <= num_features,
                ;
            }
            let ghost had = predictions@;
            let value = self.predict_row_raw_inner(features, num_features, row_idx);
            let before = predictions[row_idx];
            predictions[row_idx] = before + value;
            proof {
                assert forall|row: int| 0 <= row < row_idx + 1 implies adds_leaf(
                    self@,
                    raw_row_tests(self@, features@, num_features as int, row),
                    start[row],
                    #[trigger] predictions[row],
                ) by {
                    if row < row_idx {
                        assert(predictions[row] == had[row]);
                    }
                }
            }
            row_idx = row_idx + 1;
        }
    }
}

/// `after` is `before` with the value of a leaf at which the tests may lead
/// added to it.
pub open spec fn adds_leaf<V: Number, T>(
    nodes: Seq<Node<V, T>>,
    goes: spec_fn(int, bool) -> bool,
    before: V,
    after: V,
) -> bool {
    exists|value: V|
        #[trigger] leads_to(nodes, goes, value) && after == crate::number::plus(before, value)
}

impl<V: Copy, T: Copy> Tree<V, T> {
    /// The value for one of the rows of feature values, stored row by row.
    fn predict_row_raw_inner(&self, features: &[T], num_features: usize, row_idx: usize) -> (r: V)
        where T: PartialOrd
        requires
            self.descends(),
            tests_within(self@, num_features as nat),
            (row_idx + 1) * num_features <= features.len(),
        ensures
            leads_to(self@, raw_row_tests(self@, features@, num_features as int, row_idx as int), r),
    {
        let ghost shape = self.shape();
        let ghost goes = raw_row_tests(self@, features@, num_features as int, row_idx as int);
        let ghost start = crate::tree::shape::height(shape);
        let ghost mut left_over: nat = start;
        let mut node_idx: usize = 0;
        proof {
            assert((row_idx + 1) * num_features == row_idx * num_features + num_features)
                by (nonlinear_arith);
            assert(0 <= row_idx * num_features) by (nonlinear_arith)
                requires
                    0 <= row_idx,
                    0 <= num_features,
            ;
        }
        let row_offset: usize = row_idx * num_features;
        loop
            invariant
                self@ == self.nodes@,
                shape == self.shape(),
                tests_within(self@, num_features as nat),
                row_offset == row_idx * num_features,
                row_offset + num_features <= features.len(),
                goes == raw_row_tests(self@, features@, num_features as int, row_idx as int),
                crate::tree::shape::grounded(shape, node_idx as int, left_over),
                forall|leaf: int|
                    #[trigger] crate::tree::shape::arrives(
                        shape,
                        goes,
                        node_idx as int,
                        leaf,
                        left_over,
                    ) ==> crate::tree::shape::arrives(shape, goes, 0, leaf, start),
            decreases left_over,
        {
            let ghost here = node_idx as int;
            assert(shape[here] == self@[here].fork());
            match self.nodes[node_idx].node_type {
                NodeType::Leaf { value } => {
                    assert(crate::tree::shape::arrives(shape, goes, here, here, left_over));
                    return value;
                },
                NodeType::Internal { feature_idx, split_value, left_child, right_child, .. } => {
                    assert(feature_at(self@, here) < num_features);
                    let value = features[row_offset + feature_idx];
                    let to_left: bool = value <= split_value;
                    proof {
                        assert(goes(here, to_left));
                        crate::tree::shape::lemma_grounded_step(shape, here, left_over);
                        let next: int = if to_left {
                            left_child as int
                        } else {
                            right_child as int
                        };
                        let fewer = (left_over - 1) as nat;
                        assert forall|leaf: int|
                            #[trigger] crate::tree::shape::arrives(
                                shape,
                                goes,
                                next,
                                leaf,
                                fewer,
                            ) implies crate::tree::shape::arrives(shape, goes, 0, leaf, start) by {
                            assert(crate::tree::shape::arrives(
                                shape,
                                goes,
                                here,
                                leaf,
                                left_over,
                            ));
                        }
                        left_over = fewer;
                    }
                    if to_left {
                        node_idx = left_child;
                    } else {
                        node_idx = right_child;
                    }
                },
            }
        }
    }

    /// The places of the leaves, in order, each with its node.
    pub fn leaves(&self) -> (r: Vec<(usize, &Node<V, T>)>)
        ensures
            r.len() == places(self@, |n: Node<V, T>| n.fork() is End).len(),
            forall|k: int|
                0 <= k < r.len() ==> (#[trigger] r[k]).0 == places(
                    self@,
                    |n: Node<V, T>| n.fork() is End,
                )[k] && *r[k].1 == self@[r[k].0 as int],
    {
        self.collect(true)
    }

    /// The places of the nodes that are no leaves, in order, each with its node.
    pub fn internal_nodes(&self) -> (r: Vec<(usize, &Node<V, T>)>)
        ensures
            r.len() == places(self@, |n: Node<V, T>| n.fork() is Branch).len(),
            forall|k: int|
                0 <= k < r.len() ==> (#[trigger] r[k]).0 == places(
                    self@,
                    |n: Node<V, T>| n.fork() is Branch,
                )[k] && *r[k].1 == self@[r[k].0 as int],
    {
        let r = self.collect(false);
        proof {
            let a = |n: Node<V, T>| (n.fork() is End) == false;
            let b = |n: Node<V, T>| n.fork() is Branch;
            assert(a =~= b);
        }
        r
    }

    /// The nodes that are leaves, or those that are not.
    fn collect(&self, leaves: bool) -> (r: Vec<(usize, &Node<V, T>)>)
        ensures
            ({
                let found = places(self@, |n: Node<V, T>| (n.fork() is End) == leaves);
                &&& r.len() == found.len()
                &&& forall|k: int|
                    0 <= k < r.len() ==> (#[trigger] r[k]).0 == found[k] && *r[k].1
                        == self@[r[k].0 as int]
            }),
            leaves ==> places(self@, |n: Node<V, T>| (n.fork() is End) == leaves) == places(
                self@,
                |n: Node<V, T>| n.fork() is End,
            ),
    {
        let ghost nodes = self.nodes@;
        let ghost pick = |n: Node<V, T>| (n.fork() is End) == leaves;
        let ghost keep = |i: int| pick(nodes[i]);
        let ghost all = Seq::new(nodes.len(), |i: int| i);
        let mut r: Vec<(usize, &Node<V, T>)> = Vec::new();
        let mut i: usize = 0;
        proof {
            reveal(Seq::filter);
            assert(all.take(0).filter(keep) =~= Seq::<int>::empty());
            if leaves {
                let other = |n: Node<V, T>| n.fork() is End;
                assert(pick =~= other);
            }
        }
        while i < self.nodes.len()
            invariant
                nodes == self.nodes@,
                i <= self.nodes.len(),
                all == Seq::new(nodes.len(), |i: int| i),
                keep == (|i: int| pick(nodes[i])),
                pick == (|n: Node<V, T>| (n.fork() is End) == leaves),
                r.len() == all.take(i as int).filter(keep).len(),
                forall|k: int|
                    0 <= k < r.len() ==> (#[trigger] r[k]).0 == all.take(i as int).filter(keep)[k]
                        && r[k].0 < nodes.len() && *r[k].1 == nodes[r[k].0 as int],
            decreases self.nodes.len() - i,
        {
            proof {
                reveal(Seq::filter);
                assert(all.take(i + 1).drop_last() =~= all.take(i as int));
                assert(all.take(i + 1).last() == i);
            }
            if self.nodes[i].is_leaf() == leaves {
                r.push((i, &self.nodes[i]));
            }
            i = i + 1;
        }
        assert(all.take(i as int) =~= all);
        r
    }
}

/// A prediction for a row is the value of a leaf of the tree.
pub proof fn law_prediction_is_a_leaf_value<V, T>(
    nodes: Seq<Node<V, T>>,
    columns: Seq<Seq<u8>>,
    row: int,
)
    requires
        crate::tree::shape::descends(shape_of(nodes)),
    ensures
        exists|leaf: int|
            0 <= leaf < nodes.len() && (#[trigger] nodes[leaf]).node_type == (NodeType::<
                V,
                T,
            >::Leaf { value: row_value(nodes, columns, row) }),
{
    let shape = shape_of(nodes);
    let left_at = row_tests(nodes, columns, row);
    let n = crate::tree::shape::height(shape);
    crate::tree::shape::lemma_leaf_from(shape, left_at, 0, n, n);
    let leaf = crate::tree::shape::leaf_reached(shape, left_at);
    assert(shape[leaf] == nodes[leaf].fork());
    assert(nodes[leaf].node_type == (NodeType::<V, T>::Leaf {
        value: row_value(nodes, columns, row),
    }));
}

/// Predicting from a function that reads a row of the data gives the same as
/// predicting for that row.
pub proof fn law_row_and_function_agree<V, T, F: Fn(usize) -> u8>(
    nodes: Seq<Node<V, T>>,
    columns: Seq<Seq<u8>>,
    row: int,
    get_bin: F,
    r: V,
)
    requires
        crate::tree::shape::descends(shape_of(nodes)),
        leads_to(nodes, bin_tests(nodes, get_bin), r),
        forall|f: usize, bin: u8|
            #[trigger] call_ensures(get_bin, (f,), bin) ==> bin == columns[f as int][row],
    ensures
        r == row_value(nodes, columns, row),
{
    let shape = shape_of(nodes);
    let goes = bin_tests(nodes, get_bin);
    let left_at = row_tests(nodes, columns, row);
    let (leaf, n) = choose|leaf: int, n: nat|
        #[trigger] crate::tree::shape::arrives(shape, goes, 0, leaf, n) && r == value_at(
            nodes,
            leaf,
        );
    crate::tree::shape::lemma_arrives_at_leaf(shape, goes, left_at, 0, leaf, n);
    let h = crate::tree::shape::height(shape);
    let m: nat = if n > h {
        n
    } else {
        h
    };
    crate::tree::shape::lemma_grounded_more(shape, 0, h, m);
    crate::tree::shape::lemma_leaf_from(shape, left_at, 0, h, m);
    crate::tree::shape::lemma_arrives_more(shape, goes, 0, leaf, n, m);
    crate::tree::shape::lemma_arrives_at_leaf(shape, goes, left_at, 0, leaf, m);
}

/// Where the bins were cut so that a value passes a test exactly if its bin does,
/// predicting from the values gives the same as predicting from the bins.
pub proof fn law_values_and_bins_agree<V, T: PartialOrd>(
    nodes: Seq<Node<V, T>>,
    columns: Seq<Seq<u8>>,
    features: Seq<T>,
    num_features: int,
    row: int,
    r: V,
)
    requires
        crate::tree::shape::descends(shape_of(nodes)),
        leads_to(nodes, raw_row_tests(nodes, features, num_features, row), r),
        forall|i: int, b: bool|
            0 <= i < nodes.len() && nodes[i].fork() is Branch && #[trigger] call_ensures(
                T::le,
                (
                    &features[row * num_features + feature_at(nodes, i)],
                    &split_value_at(nodes, i),
                ),
                b,
            ) ==> b == (columns[feature_at(nodes, i) as int][row] <= threshold_at(nodes, i)),
    ensures
        r == row_value(nodes, columns, row),
{
    let shape = shape_of(nodes);
    let goes = raw_row_tests(nodes, features, num_features, row);
    let left_at = row_tests(nodes, columns, row);
    let (leaf, n) = choose|leaf: int, n: nat|
        #[trigger] crate::tree::shape::arrives(shape, goes, 0, leaf, n) && r == value_at(
            nodes,
            leaf,
        );
    assert forall|i: int, b: bool|
        0 <= i < shape.len() && shape[i] is Branch && #[trigger] goes(i, b) implies b == left_at(
        i,
    ) by {
        assert(shape[i] == nodes[i].fork());
    }
    crate::tree::shape::lemma_arrives_at_leaf(shape, goes, left_at, 0, leaf, n);
    let h = crate::tree::shape::height(shape);
    let m: nat = if n > h {
        n
    } else {
        h
    };
    crate::tree::shape::lemma_grounded_more(shape, 0, h, m);
    crate::tree::shape::lemma_leaf_from(shape, left_at, 0, h, m);
    crate::tree::shape::lemma_arrives_more(shape, goes, 0, leaf, n, m);
    crate::tree::shape::lemma_arrives_at_leaf(shape, goes, left_at, 0, leaf, m);
}

} // verus!
