//! A decision tree with several values per leaf, one per output.

use crate::number::Number;
use crate::tree::shape::Fork;
use crate::tree::split::leaf_weight;
use vstd::prelude::*;

verus! {

/// What a node does.
#[derive(Debug, Clone)]
pub enum VectorNodeType<V, T> {
    /// It tests a feature.
    Internal {
        /// The feature.
        feature_idx: usize,
        /// Rows whose bin is at most this go left.
        bin_threshold: u8,
        /// Rows whose value is at most this go left.
        split_value: T,
        /// The place of the left child.
        left_child: usize,
        /// The place of the right child.
        right_child: usize,
    },
    /// It predicts values, one per output.
    Leaf {
        /// The values.
        values: Vec<V>,
    },
}

/// A node of a tree with several outputs.
#[derive(Debug, Clone)]
pub struct VectorNode<V, T> {
    /// What the node does.
    pub node_type: VectorNodeType<V, T>,
    /// The number of steps from the root.
    pub depth: usize,
    /// The number of training rows at the node.
    pub num_samples: usize,
    /// The sum of their gradients, per output.
    pub sum_gradients: Vec<V>,
    /// The sum of their hessians, per output.
    pub sum_hessians: Vec<V>,
}

/// A node as a value.
#[verifier::ext_equal]
pub struct VectorNodeView<V, T> {
    /// The feature, the bin threshold, the split value and the two children of
    /// a node that is no leaf.
    pub test: Option<(usize, u8, T, int, int)>,
    /// The values of a leaf.
    pub values: Seq<V>,
    /// The number of steps from the root.
    pub depth: nat,
    /// The number of training rows at the node.
    pub num_samples: nat,
    /// The sum of their gradients, per output.
    pub sum_gradients: Seq<V>,
    /// The sum of their hessians, per output.
    pub sum_hessians: Seq<V>,
}

impl<V, T> VectorNodeView<V, T> {
    /// The node without what it holds.
    pub open spec fn fork(self) -> Fork {
        match self.test {
            Some(t) => Fork::Branch { left: t.3, right: t.4 },
            None => Fork::End,
        }
    }
}

impl<V, T> View for VectorNode<V, T> {
    type V = VectorNodeView<V, T>;

    open spec fn view(&self) -> VectorNodeView<V, T> {
        VectorNodeView {
            test: match self.node_type {
                VectorNodeType::Internal {
                    feature_idx,
                    bin_threshold,
                    split_value,
                    left_child,
                    right_child,
                } => Some(
                    (
                        feature_idx,
                        bin_threshold,
                        split_value,
                        left_child as int,
                        right_child as int,
                    ),
                ),
                VectorNodeType::Leaf { .. } => None,
            },
            values: match self.node_type {
                VectorNodeType::Leaf { values } => values@,
                VectorNodeType::Internal { .. } => Seq::empty(),
            },
            depth: self.depth as nat,
            num_samples: self.num_samples as nat,
            sum_gradients: self.sum_gradients@,
            sum_hessians: self.sum_hessians@,
        }
    }
}

/// A copy of a list.
pub fn copy_list<V: Copy>(list: &[V]) -> (r: Vec<V>)
    ensures
        r@ == list@,
{
    let mut copy: Vec<V> = Vec::new();
    let mut i: usize = 0;
    while i < list.len()
        invariant
            i <= list.len(),
            copy@ == list@.take(i as int),
        decreases list.len() - i,
    {
        copy.push(list[i]);
        i = i + 1;
        assert(copy@ =~= list@.take(i as int));
    }
    assert(copy@ =~= list@);
    copy
}

/// The best value of a leaf for each output.
pub open spec fn weights<V: Number>(gradients: Seq<V>, hessians: Seq<V>, lambda: V) -> Seq<V> {
    Seq::new(
        gradients.len(),
        |k: int| crate::tree::split::weight(gradients[k], hessians[k], lambda),
    )
}

impl<V: Copy, T: Copy> VectorNode<V, T> {
    /// A leaf.
    pub fn leaf(
        values: Vec<V>,
        depth: usize,
        num_samples: usize,
        sum_gradients: Vec<V>,
        sum_hessians: Vec<V>,
    ) -> (r: Self)
        ensures
            r@ == (VectorNodeView::<V, T> {
                test: None,
                values: values@,
                depth: depth as nat,
                num_samples: num_samples as nat,
                sum_gradients: sum_gradients@,
                sum_hessians: sum_hessians@,
            }),
    {
        VectorNode {
            node_type: VectorNodeType::Leaf { values },
            depth,
            num_samples,
            sum_gradients,
            sum_hessians,
        }
    }

    /// A node that tests a feature.
    pub fn internal(
        feature_idx: usize,
        bin_threshold: u8,
        split_value: T,
        left_child: usize,
        right_child: usize,
        depth: usize,
        num_samples: usize,
        sum_gradients: Vec<V>,
        sum_hessians: Vec<V>,
    ) -> (r: Self)
        ensures
            r@ == (VectorNodeView::<V, T> {
                test: Some(
                    (
                        feature_idx,
                        bin_threshold,
                        split_value,
                        left_child as int,
                        right_child as int,
                    ),
                ),
                values: Seq::empty(),
                depth: depth as nat,
                num_samples: num_samples as nat,
                sum_gradients: sum_gradients@,
                sum_hessians: sum_hessians@,
            }),
    {
        VectorNode {
            node_type: VectorNodeType::Internal {
                feature_idx,
                bin_threshold,
                split_value,
                left_child,
                right_child,
            },
            depth,
            num_samples,
            sum_gradients,
            sum_hessians,
        }
    }

    /// The number of outputs.
    pub fn num_outputs(&self) -> (r: usize)
        ensures
            r == self@.sum_gradients.len(),
    {
        self.sum_gradients.len()
    }

    /// Whether this is a leaf.
    pub fn is_leaf(&self) -> (r: bool)
        ensures
            r == (self@.fork() is End),
    {
        match &self.node_type {
            VectorNodeType::Leaf { .. } => true,
            VectorNodeType::Internal { .. } => false,
        }
    }

    /// The values of a leaf.
    pub fn leaf_values(&self) -> (r: Option<&[V]>)
        ensures
            match r {
                Some(values) => self@.fork() is End && values@ == self@.values,
                None => self@.fork() is Branch,
            },
    {
        match &self.node_type {
            VectorNodeType::Leaf { values } => Some(values.as_slice()),
            VectorNodeType::Internal { .. } => None,
        }
    }

    /// The test of a node that is no leaf: the feature, the bin threshold, the
    /// split value and the two children.
    pub fn split_info(&self) -> (r: Option<(usize, u8, T, usize, usize)>)
        ensures
            match r {
                Some(t) => self@.test == Some((t.0, t.1, t.2, t.3 as int, t.4 as int)),
                None => self@.test is None,
            },
    {
        match &self.node_type {
            VectorNodeType::Internal {
                feature_idx,
                bin_threshold,
                split_value,
                left_child,
                right_child,
            } => Some((*feature_idx, *bin_threshold, *split_value, *left_child, *right_child)),
            VectorNodeType::Leaf { .. } => None,
        }
    }

    /// The sum of the gradients, per output.
    pub fn sum_gradients(&self) -> (r: &[V])
        ensures
            r@ == self@.sum_gradients,
    {
        self.sum_gradients.as_slice()
    }

    /// The sum of the hessians, per output.
    pub fn sum_hessians(&self) -> (r: &[V])
        ensures
            r@ == self@.sum_hessians,
    {
        self.sum_hessians.as_slice()
    }
}

/// The best value of a leaf for each output.
pub fn compute_leaf_weights<V: Number>(sum_grads: &[V], sum_hess: &[V], lambda: V) -> (r: Vec<V>)
    requires
        crate::number::arithmetic::<V>(),
        sum_grads.len() == sum_hess.len(),
    ensures
        r@ == weights(sum_grads@, sum_hess@, lambda),
{
    let mut list: Vec<V> = Vec::new();
    let mut k: usize = 0;
    while k < sum_grads.len()
        invariant
            crate::number::arithmetic::<V>(),
            sum_grads.len() == sum_hess.len(),
            k <= sum_grads.len(),
            list@ == weights(sum_grads@, sum_hess@, lambda).take(k as int),
        decreases sum_grads.len() - k,
    {
        list.push(leaf_weight(sum_grads[k], sum_hess[k], lambda));
        k = k + 1;
        assert(list@ =~= weights(sum_grads@, sum_hess@, lambda).take(k as int));
    }
    assert(list@ =~= weights(sum_grads@, sum_hess@, lambda));
    list
}

impl<V: Number, T: Copy> VectorNode<V, T> {
    /// The best value of a leaf for each output.
    pub fn compute_leaf_weights(sum_grads: &[V], sum_hess: &[V], lambda: V) -> (r: Vec<V>)
        requires
            crate::number::arithmetic::<V>(),
            sum_grads.len() == sum_hess.len(),
        ensures
            r@ == weights(sum_grads@, sum_hess@, lambda),
    {
        compute_leaf_weights(sum_grads, sum_hess, lambda)
    }
}

/// A decision tree with several outputs; node 0 is the root.
#[derive(Debug, Clone)]
pub struct VectorTree<V, T> {
    nodes: Vec<VectorNode<V, T>>,
    num_outputs: usize,
}

/// The nodes of a list, as values.
pub open spec fn node_views<V, T>(nodes: Seq<VectorNode<V, T>>) -> Seq<VectorNodeView<V, T>> {
    Seq::new(nodes.len(), |i: int| nodes[i]@)
}

impl<V, T> View for VectorTree<V, T> {
    type V = Seq<VectorNodeView<V, T>>;

    closed spec fn view(&self) -> Seq<VectorNodeView<V, T>> {
        node_views(self.nodes@)
    }
}

/// The shape of a list of nodes.
pub open spec fn vector_shape<V, T>(nodes: Seq<VectorNodeView<V, T>>) -> Seq<Fork> {
    Seq::new(nodes.len(), |i: int| nodes[i].fork())
}

/// The feature that node `i` tests.
pub open spec fn feature_of<V, T>(nodes: Seq<VectorNodeView<V, T>>, i: int) -> usize {
    nodes[i].test->Some_0.0
}

/// The bin threshold of node `i`.
pub open spec fn threshold_of<V, T>(nodes: Seq<VectorNodeView<V, T>>, i: int) -> u8 {
    nodes[i].test->Some_0.1
}

/// The split value of node `i`.
pub open spec fn split_value_of<V, T>(nodes: Seq<VectorNodeView<V, T>>, i: int) -> T {
    nodes[i].test->Some_0.2
}

/// The outcomes that tests may have on bins given by a function.
pub open spec fn vector_bin_tests<V, T, F: Fn(usize) -> u8>(
    nodes: Seq<VectorNodeView<V, T>>,
    get_bin: F,
) -> spec_fn(int, bool) -> bool {
    |i: int, b: bool|
        exists|bin: u8|
            #[trigger] call_ensures(get_bin, (feature_of(nodes, i),), bin) && b == (bin
                <= threshold_of(nodes, i))
}

/// The outcomes that tests may have on bins of a sample given by a function.
pub open spec fn sample_bin_tests<V, T, F: Fn(usize, usize) -> u8>(
    nodes: Seq<VectorNodeView<V, T>>,
    get_bin: F,
    sample: usize,
) -> spec_fn(int, bool) -> bool {
    |i: int, b: bool|
        exists|bin: u8|
            #[trigger] call_ensures(get_bin, (sample, feature_of(nodes, i)), bin) && b == (bin
                <= threshold_of(nodes, i))
}

/// The outcomes that tests may have on values given by a function.
pub open spec fn vector_value_tests<V, T: PartialOrd, F: Fn(usize) -> T>(
    nodes: Seq<VectorNodeView<V, T>>,
    get_value: F,
) -> spec_fn(int, bool) -> bool {
    |i: int, b: bool|
        exists|v: T|
            #[trigger] call_ensures(get_value, (feature_of(nodes, i),), v) && call_ensures(
                T::le,
                (&v, &split_value_of(nodes, i)),
                b,
            )
}

/// The outcomes that tests may have for a row of values, stored row by row.
pub open spec fn vector_raw_row_tests<V, T: PartialOrd>(
    nodes: Seq<VectorNodeView<V, T>>,
    features: Seq<T>,
    num_features: int,
    row: int,
) -> spec_fn(int, bool) -> bool {
    |i: int, b: bool|
        call_ensures(
            T::le,
            (
                &features[row * num_features + feature_of(nodes, i)],
                &split_value_of(nodes, i),
            ),
            b,
        )
}

/// The tests of a row of the data.
pub open spec fn vector_row_tests<V, T>(
    nodes: Seq<VectorNodeView<V, T>>,
    columns: Seq<Seq<u8>>,
    row: int,
) -> spec_fn(int) -> bool {
    |i: int| columns[feature_of(nodes, i) as int][row] <= threshold_of(nodes, i)
}

/// The values of the leaf to which the tests of a row lead.
pub open spec fn vector_row_values<V, T>(
    nodes: Seq<VectorNodeView<V, T>>,
    columns: Seq<Seq<u8>>,
    row: int,
) -> Seq<V> {
    nodes[crate::tree::shape::leaf_reached(
        vector_shape(nodes),
        vector_row_tests(nodes, columns, row),
    )].values
}

/// No node tests a feature that does not exist.
pub open spec fn vector_tests_within<V, T>(
    nodes: Seq<VectorNodeView<V, T>>,
    num_features: nat,
) -> bool {
    forall|i: int|
        0 <= i < nodes.len() && (#[trigger] nodes[i]).fork() is Branch ==> feature_of(nodes, i)
            < num_features
}

/// `leaf` is a leaf at which the tests may lead.
pub open spec fn may_reach<V, T>(
    nodes: Seq<VectorNodeView<V, T>>,
    goes: spec_fn(int, bool) -> bool,
    leaf: int,
) -> bool {
    exists|n: nat| #[trigger] crate::tree::shape::arrives(vector_shape(nodes), goes, 0, leaf, n)
}

/// `values` are those of a leaf at which the tests may lead.
pub open spec fn leads_to_values<V, T>(
    nodes: Seq<VectorNodeView<V, T>>,
    goes: spec_fn(int, bool) -> bool,
    values: Seq<V>,
) -> bool {
    exists|leaf: int| #[trigger] may_reach(nodes, goes, leaf) && values == nodes[leaf].values
}

/// The greatest depth of a list of nodes.
pub open spec fn vector_deepest<V, T>(nodes: Seq<VectorNodeView<V, T>>) -> nat
    decreases nodes.len(),
{
    if nodes.len() == 0 {
        0
    } else {
        let before = vector_deepest(nodes.drop_last());
        if nodes.last().depth > before {
            nodes.last().depth
        } else {
            before
        }
    }
}

/// `after` is `before` with the values of a leaf at which the tests may lead
/// added to it.
pub open spec fn adds_values<V: Number, T>(
    nodes: Seq<VectorNodeView<V, T>>,
    goes: spec_fn(int, bool) -> bool,
    before: Seq<V>,
    after: Seq<V>,
) -> bool {
    exists|values: Seq<V>|
        #[trigger] leads_to_values(nodes, goes, values) && after
            == crate::tree::vector_histogram::added(before, values)
}

impl<V, T> VectorTree<V, T> {
    /// The number of outputs.
    pub closed spec fn outputs(&self) -> nat {
        self.num_outputs as nat
    }

    /// The shape of the tree.
    pub open spec fn shape(&self) -> Seq<Fork> {
        vector_shape(self@)
    }

    /// Every descent from the root ends at a leaf.
    pub open spec fn descends(&self) -> bool {
        crate::tree::shape::descends(self.shape())
    }

    /// Every leaf has a value per output.
    pub open spec fn values_fit(&self) -> bool {
        forall|i: int|
            0 <= i < self@.len() && (#[trigger] self@[i]).fork() is End ==> self@[i].values.len()
                == self.outputs()
    }
}

impl<V: Copy, T: Copy> VectorTree<V, T> {
    /// A tree that is a single leaf.
    pub fn new(
        root_values: Vec<V>,
        num_samples: usize,
        sum_gradients: Vec<V>,
        sum_hessians: Vec<V>,
    ) -> (r: Self)
        ensures
            r.outputs() == root_values.len(),
            r@ == seq![
                VectorNodeView::<V, T> {
                    test: None,
                    values: root_values@,
                    depth: 0,
                    num_samples: num_samples as nat,
                    sum_gradients: sum_gradients@,
                    sum_hessians: sum_hessians@,
                },
            ],
            r.descends(),
            r.values_fit(),
    {
        let num_outputs: usize = root_values.len();
        let mut nodes: Vec<VectorNode<V, T>> = Vec::new();
        nodes.push(VectorNode::leaf(root_values, 0, num_samples, sum_gradients, sum_hessians));
        let r = VectorTree { nodes, num_outputs };
        assert(crate::tree::shape::grounded(r.shape(), 0, 0));
        r
    }

    /// A tree from its nodes.
    pub fn from_nodes(nodes: Vec<VectorNode<V, T>>, num_outputs: usize) -> (r: Self)
        ensures
            r@ == node_views(nodes@),
            r.outputs() == num_outputs,
    {
        VectorTree { nodes, num_outputs }
    }

    /// The number of outputs.
    pub fn num_outputs(&self) -> (r: usize)
        ensures
            r == self.outputs(),
    {
        self.num_outputs
    }

    /// The root.
    pub fn root(&self) -> (r: &VectorNode<V, T>)
        requires
            self@.len() > 0,
        ensures
            r@ == self@[0],
    {
        &self.nodes[0]
    }

    /// A node by its place.
    pub fn get_node(&self, idx: usize) -> (r: &VectorNode<V, T>)
        requires
            idx < self@.len(),
        ensures
            r@ == self@[idx as int],
    {
        &self.nodes[idx]
    }

    /// A node by its place, for changing.
    pub fn get_node_mut(&mut self, idx: usize) -> (r: &mut VectorNode<V, T>)
        requires
            idx < old(self)@.len(),
        ensures
            r@ == old(self)@[idx as int],
            final(self)@ == old(self)@.update(idx as int, final(r)@),
            final(self).outputs() == old(self).outputs(),
    {
        let ghost before = self.nodes@;
        let r = &mut self.nodes[idx];
        assert(node_views(before.update(idx as int, *final(r))) =~= node_views(before).update(
            idx as int,
            final(r)@,
        ));
        r
    }

    /// Adds a node and returns its place.
    pub fn add_node(&mut self, node: VectorNode<V, T>) -> (r: usize)
        ensures
            r == old(self)@.len(),
            final(self)@ == old(self)@.push(node@),
            final(self).outputs() == old(self).outputs(),
    {
        let idx: usize = self.nodes.len();
        let ghost before = self@;
        self.nodes.push(node);
        assert(self@ =~= before.push(node@));
        idx
    }

    /// The number of nodes.
    pub fn num_nodes(&self) -> (r: usize)
        ensures
            r == self@.len(),
    {
        self.nodes.len()
    }

    /// The number of leaves.
    pub fn num_leaves(&self) -> (r: usize)
        ensures
            r == crate::tree::shape::leaf_count(self.shape()),
    {
        let mut count: usize = 0;
        let mut i: usize = 0;
        let ghost shape = self.shape();
        assert(shape.take(0) =~= Seq::<Fork>::empty());
        while i < self.nodes.len()
            invariant
                i <= self.nodes.len(),
                shape == vector_shape(node_views(self.nodes@)),
                count == crate::tree::shape::leaf_count(shape.take(i as int)),
                count <= i,
            decreases self.nodes.len() - i,
        {
            assert(shape.take(i + 1).drop_last() =~= shape.take(i as int));
            if self.nodes[i].is_leaf() {
                count = count + 1;
            }
            i = i + 1;
        }
        assert(shape.take(i as int) =~= shape);
        count
    }

    /// The greatest depth of a node.
    pub fn max_depth(&self) -> (r: usize)
        ensures
            r == vector_deepest(self@),
    {
        let mut max: usize = 0;
        let mut i: usize = 0;
        let ghost all = self@;
        assert(all.take(0) =~= Seq::<VectorNodeView<V, T>>::empty());
        while i < self.nodes.len()
            invariant
                i <= self.nodes.len(),
                all == node_views(self.nodes@),
                max == vector_deepest(all.take(i as int)),
            decreases self.nodes.len() - i,
        {
            assert(all.take(i + 1).drop_last() =~= all.take(i as int));
            if self.nodes[i].depth > max {
                max = self.nodes[i].depth;
            }
            i = i + 1;
        }
        assert(all.take(i as int) =~= all);
        max
    }

    /// The place of the leaf for bins given by a function.
    fn find_leaf<F: Fn(usize) -> u8>(&self, get_bin: &F) -> (r: usize)
        requires
            self.descends(),
            forall|i: int|
                0 <= i < self@.len() && (#[trigger] self@[i]).fork() is Branch ==> call_requires(
                    *get_bin,
                    (feature_of(self@, i),),
                ),
        ensures
            r < self@.len(),
            self@[r as int].fork() is End,
            may_reach(self@, vector_bin_tests(self@, *get_bin), r as int),
    {
        let ghost shape = self.shape();
        let ghost goes = vector_bin_tests(self@, *get_bin);
        let ghost start = crate::tree::shape::height(shape);
        let ghost mut left_over: nat = start;
        let mut node_idx: usize = 0;
        loop
            invariant
                self@ == node_views(self.nodes@),
                shape == self.shape(),
                goes == vector_bin_tests(self@, *get_bin),
                forall|i: int|
                    0 <= i < self@.len() && (#[trigger] self@[i]).fork() is Branch
                        ==> call_requires(*get_bin, (feature_of(self@, i),)),
                crate::tree::shape::grounded(shape, node_idx as int, left_over),
                forall|leaf: int|
                    #[trigger] crate::tree::shape::arrives(
                        shape,
                        goes,
                        node_idx as int,
                        leaf,
                        left_over,
                    ) ==> crate::tree::shape::arrives(shape, goes, 0, leaf, start),
            decreases left_over,
        {
            let ghost here = node_idx as int;
            assert(shape[here] == self@[here].fork());
            match self.nodes[node_idx].split_info() {
                None => {
                    assert(crate::tree::shape::arrives(shape, goes, here, here, left_over));
                    return node_idx;
                },
                Some((feature_idx, bin_threshold, _, left_child, right_child)) => {
                    let bin: u8 = (*get_bin)(feature_idx);
                    proof {
                        assert(goes(here, bin <= bin_threshold));
                        crate::tree::shape::lemma_grounded_step(shape, here, left_over);
                        let next: int = if bin <= bin_threshold {
                            left_child as int
                        } else {
                            right_child as int
                        };
                        let fewer = (left_over - 1) as nat;
                        assert forall|leaf: int|
                            #[trigger] crate::tree::shape::arrives(
                                shape,
                                goes,
                                next,
                                leaf,
                                fewer,
                            ) implies crate::tree::shape::arrives(shape, goes, 0, leaf, start) by {
                            assert(crate::tree::shape::arrives(
                                shape,
                                goes,
                                here,
                                leaf,
                                left_over,
                            ));
                        }
                        left_over = fewer;
                    }
                    if bin <= bin_threshold {
                        node_idx = left_child;
                    } else {
                        node_idx = right_child;
                    }
                },
            }
        }
    }

    /// The place of the leaf for feature values given by a function.
    fn find_leaf_raw<F: Fn(usize) -> T>(&self, get_value: &F) -> (r: usize) where T: PartialOrd
        requires
            self.descends(),
            forall|i: int|
                0 <= i < self@.len() && (#[trigger] self@[i]).fork() is Branch ==> call_requires(
                    *get_value,
                    (feature_of(self@, i),),
                ),
        ensures
            r < self@.len(),
            self@[r as int].fork() is End,
            may_reach(self@, vector_value_tests(self@, *get_value), r as int),
    {
        let ghost shape = self.shape();
        let ghost goes = vector_value_tests(self@, *get_value);
        let ghost start = crate::tree::shape::height(shape);
        let ghost mut left_over: nat = start;
        let mut node_idx: usize = 0;
        loop
            invariant
                self@ == node_views(self.nodes@),
                shape == self.shape(),
                goes == vector_value_tests(self@, *get_value),
                forall|i: int|
                    0 <= i < self@.len() && (#[trigger] self@[i]).fork() is Branch
                        ==> call_requires(*get_value, (feature_of(self@, i),)),
                crate::tree::shape::grounded(shape, node_idx as int, left_over),
                forall|leaf: int|
                    #[trigger] crate::tree::shape::arrives(
                        shape,
                        goes,
                        node_idx as int,
                        leaf,
                        left_over,
                    ) ==> crate::tree::shape::arrives(shape, goes, 0, leaf, start),
            decreases left_over,
        {
            let ghost here = node_idx as int;
            assert(shape[here] == self@[here].fork());
            match self.nodes[node_idx].split_info() {
                None => {
                    assert(crate::tree::shape::arrives(shape, goes, here, here, left_over));
                    return node_idx;
                },
                Some((feature_idx, _, split_value, left_child, right_child)) => {
                    let value = (*get_value)(feature_idx);
                    let to_left: bool = value <= split_value;
                    proof {
                        assert(goes(here, to_left));
                        crate::tree::shape::lemma_grounded_step(shape, here, left_over);
                        let next: int = if to_left {
                            left_child as int
                        } else {
                            right_child as int
                        };
                        let fewer = (left_over - 1) as nat;
                        assert forall|leaf: int|
                            #[trigger] crate::tree::shape::arrives(
                                shape,
                                goes,
                                next,
                                leaf,
                                fewer,
                            ) implies crate::tree::shape::arrives(shape, goes, 0, leaf, start) by {
                            assert(crate::tree::shape::arrives(
                                shape,
                                goes,
                                here,
                                leaf,
                                left_over,
                            ));
                        }
                        left_over = fewer;
                    }
                    if to_left {
                        node_idx = left_child;
                    } else {
                        node_idx = right_child;
                    }
                },
            }
        }
    }

    /// The values of a leaf.
    fn values_at(&self, leaf: usize) -> (r: &[V])
        requires
            leaf < self@.len(),
            self@[leaf as int].fork() is End,
        ensures
            r@ == self@[leaf as int].values,
    {
        match &self.nodes[leaf].node_type {
            VectorNodeType::Leaf { values } => values.as_slice(),
            VectorNodeType::Internal { .. } => {
                assert(self@[leaf as int] == self.nodes[leaf as int]@);
                assert(false);
                self.nodes[leaf].sum_gradients.as_slice()
            },
        }
    }

    /// The values for bins given by a function, for reading.
    fn predict_to_leaf<F: Fn(usize) -> u8>(&self, get_bin: &F) -> (r: &[V])
        requires
            self.descends(),
            forall|i: int|
                0 <= i < self@.len() && (#[trigger] self@[i]).fork() is Branch ==> call_requires(
                    *get_bin,
                    (feature_of(self@, i),),
                ),
        ensures
            leads_to_values(self@, vector_bin_tests(self@, *get_bin), r@),
            self.values_fit() ==> r.len() == self.outputs(),
    {
        let leaf: usize = self.find_leaf(get_bin);
        self.values_at(leaf)
    }

    /// The values for feature values given by a function, for reading.
    fn predict_to_leaf_raw<F: Fn(usize) -> T>(&self, get_value: &F) -> (r: &[V])
        where T: PartialOrd
        requires
            self.descends(),
            forall|i: int|
                0 <= i < self@.len() && (#[trigger] self@[i]).fork() is Branch ==> call_requires(
                    *get_value,
                    (feature_of(self@, i),),
                ),
        ensures
            leads_to_values(self@, vector_value_tests(self@, *get_value), r@),
            self.values_fit() ==> r.len() == self.outputs(),
    {
        let leaf: usize = self.find_leaf_raw(get_value);
        self.values_at(leaf)
    }

    /// The values for bins given by a function.
    pub fn predict<F: Fn(usize) -> u8>(&self, get_bin: F) -> (r: Vec<V>)
        requires
            self.descends(),
            forall|i: int|
                0 <= i < self@.len() && (#[trigger] self@[i]).fork() is Branch ==> call_requires(
                    get_bin,
                    (feature_of(self@, i),),
                ),
        ensures
            leads_to_values(self@, vector_bin_tests(self@, get_bin), r@),
    {
        copy_list(self.predict_to_leaf(&get_bin))
    }

    /// The values for feature values given by a function.
    pub fn predict_raw<F: Fn(usize) -> T>(&self, get_value: F) -> (r: Vec<V>) where T: PartialOrd
        requires
            self.descends(),
            forall|i: int|
                0 <= i < self@.len() && (#[trigger] self@[i]).fork() is Branch ==> call_requires(
                    get_value,
                    (feature_of(self@, i),),
                ),
        ensures
            leads_to_values(self@, vector_value_tests(self@, get_value), r@),
    {
        copy_list(self.predict_to_leaf_raw(&get_value))
    }

    /// The nodes.
    pub fn nodes(&self) -> (r: &[VectorNode<V, T>])
        ensures
            node_views(r@) == self@,
    {
        self.nodes.as_slice()
    }

    /// The nodes, for changing.
    pub fn nodes_mut(&mut self) -> (r: &mut Vec<VectorNode<V, T>>)
        ensures
            node_views(r@) == old(self)@,
            final(self)@ == node_views(final(r)@),
            final(self).outputs() == old(self).outputs(),
    {
        &mut self.nodes
    }
}

/// The places of the nodes for which `pick` holds, in order.
pub open spec fn vector_places<V, T>(
    nodes: Seq<VectorNodeView<V, T>>,
    pick: spec_fn(VectorNodeView<V, T>) -> bool,
) -> Seq<int> {
    Seq::new(nodes.len(), |i: int| i).filter(|i: int| pick(nodes[i]))
}

impl<V: Copy, T: Copy> VectorTree<V, T> {
    /// The places of the leaves, in order, each with its node.
    pub fn leaves(&self) -> (r: Vec<(usize, &VectorNode<V, T>)>)
        ensures
            r.len() == vector_places(self@, |n: VectorNodeView<V, T>| n.fork() is End).len(),
            forall|k: int|
                0 <= k < r.len() ==> (#[trigger] r[k]).0 == vector_places(
                    self@,
                    |n: VectorNodeView<V, T>| n.fork() is End,
                )[k] && r[k].1@ == self@[r[k].0 as int],
    {
        let r = self.collect(true);
        proof {
            let a = |n: VectorNodeView<V, T>| (n.fork() is End) == true;
            let b = |n: VectorNodeView<V, T>| n.fork() is End;
            assert(a =~= b);
        }
        r
    }

    /// The places of the nodes that are no leaves, in order, each with its node.
    pub fn internal_nodes(&self) -> (r: Vec<(usize, &VectorNode<V, T>)>)
        ensures
            r.len() == vector_places(self@, |n: VectorNodeView<V, T>| n.fork() is Branch).len(),
            forall|k: int|
                0 <= k < r.len() ==> (#[trigger] r[k]).0 == vector_places(
                    self@,
                    |n: VectorNodeView<V, T>| n.fork() is Branch,
                )[k] && r[k].1@ == self@[r[k].0 as int],
    {
        let r = self.collect(false);
        proof {
            let a = |n: VectorNodeView<V, T>| (n.fork() is End) == false;
            let b = |n: VectorNodeView<V, T>| n.fork() is Branch;
            assert(a =~= b);
        }
        r
    }

    /// The nodes that are leaves, or those that are not.
    fn collect(&self, leaves: bool) -> (r: Vec<(usize, &VectorNode<V, T>)>)
        ensures
            ({
                let found = vector_places(
                    self@,
                    |n: VectorNodeView<V, T>| (n.fork() is End) == leaves,
                );
                &&& r.len() == found.len()
                &&& forall|k: int|
                    0 <= k < r.len() ==> (#[trigger] r[k]).0 == found[k] && r[k].1@
                        == self@[r[k].0 as int]
            }),
    {
        let ghost nodes = self@;
        let ghost pick = |n: VectorNodeView<V, T>| (n.fork() is End) == leaves;
        let ghost keep = |i: int| pick(nodes[i]);
        let ghost all = Seq::new(nodes.len(), |i: int| i);
        let mut r: Vec<(usize, &VectorNode<V, T>)> = Vec::new();
        let mut i: usize = 0;
        proof {
            reveal(Seq::filter);
            assert(all.take(0).filter(keep) =~= Seq::<int>::empty());
        }
        while i < self.nodes.len()
            invariant
                nodes == node_views(self.nodes@),
                i <= self.nodes.len(),
                all == Seq::new(nodes.len(), |i: int| i),
                keep == (|i: int| pick(nodes[i])),
                pick == (|n: VectorNodeView<V, T>| (n.fork() is End) == leaves),
                r.len() == all.take(i as int).filter(keep).len(),
                forall|k: int|
                    0 <= k < r.len() ==> (#[trigger] r[k]).0 == all.take(i as int).filter(keep)[k]
                        && r[k].0 < nodes.len() && r[k].1@ == nodes[r[k].0 as int],
            decreases self.nodes.len() - i,
        {
            proof {
                reveal(Seq::filter);
                assert(all.take(i + 1).drop_last() =~= all.take(i as int));
                assert(all.take(i + 1).last() == i);
                assert(nodes[i as int] == self.nodes[i as int]@);
            }
            if self.nodes[i].is_leaf() == leaves {
                r.push((i, &self.nodes[i]));
            }
            i = i + 1;
        }
        assert(all.take(i as int) =~= all);
        r
    }
}

/// The bin of a sample and a feature may be read.
spec fn may_read<F: Fn(usize, usize) -> u8>(get_bin: &F, sample: usize, feature: usize) -> bool {
    call_requires(*get_bin, (sample, feature))
}

/// The bin of a sample and a feature is read as `bin`.
spec fn reads<F: Fn(usize, usize) -> u8>(
    get_bin: &F,
    sample: usize,
    feature: usize,
    bin: u8,
) -> bool {
    call_ensures(*get_bin, (sample, feature), bin)
}

/// Adds `values` to the entries of `list` from `offset` on.
fn add_from<V: Number>(list: &mut [V], offset: usize, values: &[V])
    requires
        crate::number::arithmetic::<V>(),
        offset + values.len() <= old(list).len(),
    ensures
        final(list).len() == old(list).len(),
        forall|j: int|
            0 <= j < old(list).len() ==> #[trigger] final(list)[j] == (if offset <= j < offset
                + values.len() {
                crate::number::plus(old(list)[j], values[j - offset])
            } else {
                old(list)[j]
            }),
{
    let ghost start = list@;
    let mut k: usize = 0;
    while k < values.len()
        invariant
            crate::number::arithmetic::<V>(),
            k <= values.len(),
            offset + values.len() <= list.len(),
            list.len() == start.len(),
            forall|j: int|
                0 <= j < start.len() ==> #[trigger] list[j] == (if offset <= j < offset + k {
                    crate::number::plus(start[j], values[j - offset])
                } else {
                    start[j]
                }),
        decreases values.len() - k,
    {
        let before: V = list[offset + k];
        list[offset + k] = before + values[k];
        k = k + 1;
    }
}

/// Values to which tests lead are also led to by tests with more outcomes.
proof fn lemma_leads_wider<V, T>(
    nodes: Seq<VectorNodeView<V, T>>,
    goes: spec_fn(int, bool) -> bool,
    wider: spec_fn(int, bool) -> bool,
    values: Seq<V>,
)
    requires
        leads_to_values(nodes, goes, values),
        forall|k: int, b: bool| #[trigger] goes(k, b) ==> wider(k, b),
    ensures
        leads_to_values(nodes, wider, values),
{
    let leaf = choose|leaf: int|
        #[trigger] may_reach(nodes, goes, leaf) && values == nodes[leaf].values;
    let n = choose|n: nat|
        #[trigger] crate::tree::shape::arrives(vector_shape(nodes), goes, 0, leaf, n);
    crate::tree::shape::lemma_arrives_wider(vector_shape(nodes), goes, wider, 0, leaf, n);
    assert(may_reach(nodes, wider, leaf));
}

/// After the values of one sample have been added to its part of the buffer,
/// one more sample is done.
proof fn lemma_sample_done<V: Number>(
    start: Seq<V>,
    before: Seq<V>,
    after: Seq<V>,
    k: nat,
    samples: nat,
    i: int,
    values: Seq<V>,
)
    requires
        0 <= i < samples,
        start.len() == samples * k,
        before.len() == start.len(),
        after.len() == start.len(),
        values.len() == k,
        forall|j: int| i * k <= j < start.len() ==> #[trigger] before[j] == start[j],
        forall|j: int|
            0 <= j < start.len() ==> #[trigger] after[j] == (if i * k <= j < i * k + k {
                crate::number::plus(before[j], values[j - i * k])
            } else {
                before[j]
            }),
    ensures
        i * k + k <= start.len(),
        forall|j: int| (i + 1) * k <= j < start.len() ==> #[trigger] after[j] == start[j],
        forall|r: int|
            0 <= r < i ==> #[trigger] crate::tree::vector_histogram::row_part(after, k, r)
                == crate::tree::vector_histogram::row_part(before, k, r),
        crate::tree::vector_histogram::row_part(after, k, i)
            == crate::tree::vector_histogram::added(
            crate::tree::vector_histogram::row_part(start, k, i),
            values,
        ),
{
    assert(i * k + k <= samples * k && 0 <= i * k && (i + 1) * k == i * k + k)
        by (nonlinear_arith)
        requires
            0 <= i < samples,
            0 <= k,
    ;
    assert forall|r: int| 0 <= r < i implies #[trigger] crate::tree::vector_histogram::row_part(
        after,
        k,
        r,
    ) == crate::tree::vector_histogram::row_part(before, k, r) by {
        assert(r * k + k <= i * k && 0 <= r * k) by (nonlinear_arith)
            requires
                0 <= r < i,
                0 <= k,
        ;
        assert(crate::tree::vector_histogram::row_part(after, k, r)
            =~= crate::tree::vector_histogram::row_part(before, k, r));
    }
    assert(crate::tree::vector_histogram::row_part(after, k, i)
        =~= crate::tree::vector_histogram::added(
        crate::tree::vector_histogram::row_part(start, k, i),
        values,
    ));
}

impl<V: Number, T: Copy> VectorTree<V, T> {
    /// Adds the values for each sample to its predictions, which stand sample by
    /// sample. `get_bin` gives the bin of a sample and a feature.
    pub fn predict_batch_add<F: Fn(usize, usize) -> u8>(
        &self,
        get_bin: F,
        num_samples: usize,
        predictions: &mut [V],
    )
        requires
            crate::number::arithmetic::<V>(),
            self.descends(),
            self.values_fit(),
            old(predictions).len() == num_samples * self.outputs(),
            forall|i: int, sample: usize|
                0 <= i < self@.len() && (#[trigger] self@[i]).fork() is Branch && sample
                    < num_samples ==> #[trigger] call_requires(
                    get_bin,
                    (sample, feature_of(self@, i)),
                ),
        ensures
            final(predictions).len() == old(predictions).len(),
            forall|sample: usize|
                sample < num_samples ==> adds_values(
                    self@,
                    #[trigger] sample_bin_tests(self@, get_bin, sample),
                    crate::tree::vector_histogram::row_part(
                        old(predictions)@,
                        self.outputs(),
                        sample as int,
                    ),
                    crate::tree::vector_histogram::row_part(
                        final(predictions)@,
                        self.outputs(),
                        sample as int,
                    ),
                ),
    {
        let ghost start = predictions@;
        let ghost k = self.outputs();
        let mut sample_idx: usize = 0;
        while sample_idx < num_samples
            invariant
                crate::number::arithmetic::<V>(),
                self.descends(),
                self.values_fit(),
                k == self.outputs(),
                start.len() == num_samples * k,
                predictions.len() == start.len(),
                forall|i: int, sample: usize|
                    0 <= i < self@.len() && (#[trigger] self@[i]).fork() is Branch && sample
                        < num_samples ==> #[trigger] call_requires(
                        get_bin,
                        (sample, feature_of(self@, i)),
                    ),
                sample_idx <= num_samples,
                forall|j: int|
                    sample_idx * k <= j < start.len() ==> #[trigger] predictions[j] == start[j],
                forall|sample: usize|
                    sample < sample_idx ==> adds_values(
                        self@,
                        #[trigger] sample_bin_tests(self@, get_bin, sample),
                        crate::tree::vector_histogram::row_part(start, k, sample as int),
                        crate::tree::vector_histogram::row_part(predictions@, k, sample as int),
                    ),
            decreases num_samples - sample_idx,
        {
            let ghost had = predictions@;
            let reader = &get_bin;
            let pick = |f: usize| -> (b: u8)
                requires
                    may_read(reader, sample_idx, f),
                ensures
                    reads(reader, sample_idx, f, b),
                { (*reader)(sample_idx, f) };
            let values = self.predict_to_leaf(&pick);
            proof {
                lemma_leads_wider(
                    self@,
                    vector_bin_tests(self@, pick),
                    sample_bin_tests(self@, get_bin, sample_idx),
                    values@,
                );
                assert(sample_idx * k + k <= num_samples * k && 0 <= sample_idx * k)
                    by (nonlinear_arith)
                    requires
                        sample_idx < num_samples,
                        0 <= k,
                ;
            }
            let offset: usize = sample_idx * self.num_outputs;
            add_from(predictions, offset, values);
            proof {
                lemma_sample_done(
                    start,
                    had,
                    predictions@,
                    k,
                    num_samples as nat,
                    sample_idx as int,
                    values@,
                );
                assert(adds_values(
                    self@,
                    sample_bin_tests(self@, get_bin, sample_idx),
                    crate::tree::vector_histogram::row_part(start, k, sample_idx as int),
                    crate::tree::vector_histogram::row_part(predictions@, k, sample_idx as int),
                ));
            }
            sample_idx = sample_idx + 1;
        }
    }

    /// Adds the values for each row of feature values, stored row by row, to its
    /// predictions, which stand row by row too.
    pub fn predict_batch_add_raw(&self, features: &[T], num_features: usize, predictions: &mut [V])
        where T: PartialOrd
        requires
            crate::number::arithmetic::<V>(),
            self.descends(),
            self.values_fit(),
            self.outputs() > 0,
            vector_tests_within(self@, num_features as nat),
            old(predictions)@.len() % self.outputs() == 0,
            features.len() == old(predictions)@.len() / self.outputs() * num_features,
        ensures
            final(predictions).len() == old(predictions).len(),
            forall|row: int|
                0 <= row < old(predictions)@.len() / self.outputs() ==> adds_values(
                    self@,
                    #[trigger] vector_raw_row_tests(
                        self@,
                        features@,
                        num_features as int,
                        row,
                    ),
                    crate::tree::vector_histogram::row_part(
                        old(predictions)@,
                        self.outputs(),
                        row,
                    ),
                    crate::tree::vector_histogram::row_part(
                        final(predictions)@,
                        self.outputs(),
                        row,
                    ),
                ),
    {
        let ghost start = predictions@;
        let ghost k = self.outputs();
        let num_samples: usize = predictions.len() / self.num_outputs;
        proof {
            assert(num_samples * k == start.len()) by (nonlinear_arith)
                requires
                    num_samples == start.len() / k,
                    start.len() % k == 0,
                    k > 0,
            ;
        }
        let mut row: usize = 0;
        while row < num_samples
            invariant
                crate::number::arithmetic::<V>(),
                self.descends(),
                self.values_fit(),
                k == self.outputs(),
                vector_tests_within(self@, num_features as nat),
                features.len() == num_samples * num_features,
                start.len() == num_samples * k,
                predictions.len() == start.len(),
                row <= num_samples,
                forall|j: int| row * k <= j < start.len() ==> #[trigger] predictions[j] == start[j],
                forall|r: int|
                    0 <= r < row ==> adds_values(
                        self@,
                        #[trigger] vector_raw_row_tests(self@, features@, num_features as int, r),
                        crate::tree::vector_histogram::row_part(start, k, r),
                        crate::tree::vector_histogram::row_part(predictions@, k, r),
                    ),
            decreases num_samples - row,
        {
            let ghost had = predictions@;
            proof {
                assert(row * k + k <= num_samples * k && 0 <= row * k) by (nonlinear_arith)
                    requires
                        row < num_samples,
                        0 <= k,
                ;
                assert(row * num_features + num_features <= num_samples * num_features && 0 <= row
                    * num_features) by (nonlinear_arith)
                    requires
                        row < num_samples,
                        0 <= num_features,
                ;
            }
            let row_offset: usize = row * num_features;
            let pick = |f: usize| -> (v: T)
                requires
                    row_offset + f < features.len(),
                ensures
                    v == features[row_offset + f],
                { features[row_offset + f] };
            let values = self.predict_to_leaf_raw(&pick);
            let ghost goes = vector_raw_row_tests(
                self@,
                features@,
                num_features as int,
                row as int,
            );
            proof {
                lemma_leads_wider(self@, vector_value_tests(self@, pick), goes, values@);
            }
            let offset: usize = row * self.num_outputs;
            add_from(predictions, offset, values);
            proof {
                lemma_sample_done(
                    start,
                    had,
                    predictions@,
                    k,
                    num_samples as nat,
                    row as int,
                    values@,
                );
                assert(adds_values(
                    self@,
                    goes,
                    crate::tree::vector_histogram::row_part(start, k, row as int),
                    crate::tree::vector_histogram::row_part(predictions@, k, row as int),
                ));
            }
            row = row + 1;
        }
    }
}

/// What a tree predicts are the values of one of its leaves, one per output.
pub proof fn law_vector_prediction_is_a_leaf<V, T>(
    tree: &VectorTree<V, T>,
    goes: spec_fn(int, bool) -> bool,
    values: Seq<V>,
)
    requires
        tree.values_fit(),
        leads_to_values(tree@, goes, values),
    ensures
        values.len() == tree.outputs(),
        exists|leaf: int|
            0 <= leaf < tree@.len() && (#[trigger] tree@[leaf]).fork() is End && values
                == tree@[leaf].values,
{
    let shape = vector_shape(tree@);
    let leaf = choose|leaf: int|
        #[trigger] may_reach(tree@, goes, leaf) && values == tree@[leaf].values;
    let n = choose|n: nat| #[trigger] crate::tree::shape::arrives(shape, goes, 0, leaf, n);
    crate::tree::shape::lemma_arrival_is_leaf(shape, goes, 0, leaf, n);
    assert(shape[leaf] == tree@[leaf].fork());
}

/// Where every test has the outcome that it has on a row of the data, the
/// values predicted are those for that row.
pub proof fn law_vector_row_and_function_agree<V, T>(
    nodes: Seq<VectorNodeView<V, T>>,
    columns: Seq<Seq<u8>>,
    row: int,
    goes: spec_fn(int, bool) -> bool,
    values: Seq<V>,
)
    requires
        crate::tree::shape::descends(vector_shape(nodes)),
        leads_to_values(nodes, goes, values),
        forall|k: int, b: bool|
            0 <= k < nodes.len() && nodes[k].fork() is Branch && #[trigger] goes(k, b) ==> b
                == vector_row_tests(nodes, columns, row)(k),
    ensures
        values == vector_row_values(nodes, columns, row),
{
    let shape = vector_shape(nodes);
    let left_at = vector_row_tests(nodes, columns, row);
    let leaf = choose|leaf: int|
        #[trigger] may_reach(nodes, goes, leaf) && values == nodes[leaf].values;
    let n = choose|n: nat| #[trigger] crate::tree::shape::arrives(shape, goes, 0, leaf, n);
    assert forall|k: int, b: bool|
        0 <= k < shape.len() && shape[k] is Branch && #[trigger] goes(k, b) implies b == left_at(
        k,
    ) by {
        assert(shape[k] == nodes[k].fork());
    }
    crate::tree::shape::lemma_arrives_at_leaf(shape, goes, left_at, 0, leaf, n);
    let h = crate::tree::shape::height(shape);
    let m: nat = if n > h {
        n
    } else {
        h
    };
    crate::tree::shape::lemma_grounded_more(shape, 0, h, m);
    crate::tree::shape::lemma_leaf_from(shape, left_at, 0, h, m);
    crate::tree::shape::lemma_arrives_more(shape, goes, 0, leaf, n, m);
    crate::tree::shape::lemma_arrives_at_leaf(shape, goes, left_at, 0, leaf, m);
}

/// Where the bins were cut so that a value passes a test exactly if its bin does,
/// predicting from the values gives the same as predicting from the bins.
pub proof fn law_vector_values_and_bins_agree<V, T: PartialOrd>(
    nodes: Seq<VectorNodeView<V, T>>,
    columns: Seq<Seq<u8>>,
    features: Seq<T>,
    num_features: int,
    row: int,
    values: Seq<V>,
)
    requires
        crate::tree::shape::descends(vector_shape(nodes)),
        leads_to_values(nodes, vector_raw_row_tests(nodes, features, num_features, row), values),
        forall|i: int, b: bool|
            0 <= i < nodes.len() && nodes[i].fork() is Branch && #[trigger] call_ensures(
                T::le,
                (
                    &features[row * num_features + feature_of(nodes, i)],
                    &split_value_of(nodes, i),
                ),
                b,
            ) ==> b == (columns[feature_of(nodes, i) as int][row] <= threshold_of(nodes, i)),
    ensures
        values == vector_row_values(nodes, columns, row),
{
    law_vector_row_and_function_agree(
        nodes,
        columns,
        row,
        vector_raw_row_tests(nodes, features, num_features, row),
        values,
    );
}

/// No other value of a leaf leaves less loss for an output than the one it has.
pub proof fn law_vector_leaf_is_best<V: Number>(
    worth: spec_fn(V) -> real,
    gradients: Seq<V>,
    hessians: Seq<V>,
    lambda: V,
    k: int,
    w: real,
)
    requires
        crate::exact::exact(worth),
        0 <= k < gradients.len(),
        worth(hessians[k]) + worth(lambda) > 0real,
    ensures
        ({
            let (g, h, l) = (worth(gradients[k]), worth(hessians[k]), worth(lambda));
            let best = worth(weights(gradients, hessians, lambda)[k]);
            w != best ==> crate::tree::split::leaf_loss(g, h, l, best)
                < crate::tree::split::leaf_loss(g, h, l, w)
        }),
{
    crate::tree::split::law_leaf_weight_is_best(worth, gradients[k], hessians[k], lambda, w);
}

} // verus!
