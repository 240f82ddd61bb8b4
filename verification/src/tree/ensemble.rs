//! One type for trees with one output and trees with several.

use crate::number::{sum, Number};
use crate::tree::dataset::BinnedDataset;
use crate::tree::tree::Tree;
use crate::tree::vector_tree::VectorTree;
use vstd::prelude::*;

verus! {

/// A tree of an ensemble.
#[derive(Debug, Clone)]
pub enum EnsembleTree<V, T> {
    /// A tree with one value per leaf.
    Scalar(Tree<V, T>),
    /// A tree with several values per leaf.
    Vector(VectorTree<V, T>),
}

impl<V, T> EnsembleTree<V, T> {
    /// The shape of the tree.
    pub open spec fn shape(&self) -> Seq<crate::tree::shape::Fork> {
        match self {
            EnsembleTree::Scalar(t) => t.shape(),
            EnsembleTree::Vector(t) => t.shape(),
        }
    }
}

/// What feature importance reads of a tree: for each node that is no leaf, in
/// order, its place, its feature and its hessians, added up over the outputs.
pub open spec fn split_weights<V: Number, T>(tree: &EnsembleTree<V, T>) -> Seq<(usize, usize, V)> {
    match tree {
        EnsembleTree::Scalar(t) => crate::tree::tree::places(
            t@,
            |n: crate::tree::node::Node<V, T>| n.fork() is Branch,
        ).map_values(
            |i: int|
                (i as usize, crate::tree::tree::feature_at(t@, i), t@[i].sum_hessians),
        ),
        EnsembleTree::Vector(t) => crate::tree::vector_tree::vector_places(
            t@,
            |n: crate::tree::vector_tree::VectorNodeView<V, T>| n.fork() is Branch,
        ).map_values(
            |i: int|
                (
                    i as usize,
                    crate::tree::vector_tree::feature_of(t@, i),
                    crate::number::total(t@[i].sum_hessians),
                ),
        ),
    }
}

impl<V: Copy, T: Copy> EnsembleTree<V, T> {
    /// Whether this tree has one value per leaf.
    pub fn is_scalar(&self) -> (r: bool)
        ensures
            r == (self is Scalar),
    {
        match self {
            EnsembleTree::Scalar(_) => true,
            EnsembleTree::Vector(_) => false,
        }
    }

    /// Whether this tree has several values per leaf.
    pub fn is_vector(&self) -> (r: bool)
        ensures
            r == (self is Vector),
    {
        match self {
            EnsembleTree::Scalar(_) => false,
            EnsembleTree::Vector(_) => true,
        }
    }

    /// The tree with one value per leaf.
    pub fn as_scalar(&self) -> (r: &Tree<V, T>)
        requires
            self is Scalar,
        ensures
            *r == self->Scalar_0,
    {
        match self {
            EnsembleTree::Scalar(t) => t,
            EnsembleTree::Vector(_) => vstd::pervasive::unreached(),
        }
    }

    /// The tree with several values per leaf.
    pub fn as_vector(&self) -> (r: &VectorTree<V, T>)
        requires
            self is Vector,
        ensures
            *r == self->Vector_0,
    {
        match self {
            EnsembleTree::Vector(t) => t,
            EnsembleTree::Scalar(_) => vstd::pervasive::unreached(),
        }
    }

    /// The tree with one value per leaf, if it is one.
    pub fn try_as_scalar(&self) -> (r: Option<&Tree<V, T>>)
        ensures
            match r {
                Some(t) => *self == EnsembleTree::Scalar(*t),
                None => self is Vector,
            },
    {
        match self {
            EnsembleTree::Scalar(t) => Some(t),
            EnsembleTree::Vector(_) => None,
        }
    }

    /// The tree with several values per leaf, if it is one.
    pub fn try_as_vector(&self) -> (r: Option<&VectorTree<V, T>>)
        ensures
            match r {
                Some(t) => *self == EnsembleTree::Vector(*t),
                None => self is Scalar,
            },
    {
        match self {
            EnsembleTree::Vector(t) => Some(t),
            EnsembleTree::Scalar(_) => None,
        }
    }

    /// The number of nodes.
    pub fn num_nodes(&self) -> (r: usize)
        ensures
            r == self.shape().len(),
    {
        match self {
            EnsembleTree::Scalar(t) => t.num_nodes(),
            EnsembleTree::Vector(t) => t.num_nodes(),
        }
    }

    /// The number of leaves.
    pub fn num_leaves(&self) -> (r: usize)
        ensures
            r == crate::tree::shape::leaf_count(self.shape()),
    {
        match self {
            EnsembleTree::Scalar(t) => t.num_leaves(),
            EnsembleTree::Vector(t) => t.num_leaves(),
        }
    }

    /// The greatest depth of a node.
    pub fn max_depth(&self) -> (r: usize)
        ensures
            r == (match self {
                EnsembleTree::Scalar(t) => crate::tree::tree::deepest(t@),
                EnsembleTree::Vector(t) => crate::tree::vector_tree::vector_deepest(t@),
            }),
    {
        match self {
            EnsembleTree::Scalar(t) => t.max_depth(),
            EnsembleTree::Vector(t) => t.max_depth(),
        }
    }

    /// The number of values per leaf.
    pub fn num_outputs(&self) -> (r: usize)
        ensures
            r == (match self {
                EnsembleTree::Scalar(_) => 1,
                EnsembleTree::Vector(t) => t.outputs(),
            }),
    {
        match self {
            EnsembleTree::Scalar(_) => 1,
            EnsembleTree::Vector(t) => t.num_outputs(),
        }
    }

    /// The value for bins given by a function, of a tree with one value per
    /// leaf.
    pub fn predict_scalar<F: Fn(usize) -> u8>(&self, get_bin: F) -> (r: V)
        requires
            self is Scalar,
            self->Scalar_0.descends(),
            forall|i: int|
                0 <= i < self->Scalar_0@.len() && (#[trigger] self->Scalar_0@[i]).fork() is Branch
                    ==> call_requires(
                    get_bin,
                    (crate::tree::tree::feature_at(self->Scalar_0@, i),),
                ),
        ensures
            crate::tree::tree::leads_to(
                self->Scalar_0@,
                crate::tree::tree::bin_tests(self->Scalar_0@, get_bin),
                r,
            ),
    {
        self.as_scalar().predict(get_bin)
    }

    /// The same as [`EnsembleTree::predict_scalar`].
    pub fn predict<F: Fn(usize) -> u8>(&self, get_bin: F) -> (r: V)
        requires
            self is Scalar,
            self->Scalar_0.descends(),
            forall|i: int|
                0 <= i < self->Scalar_0@.len() && (#[trigger] self->Scalar_0@[i]).fork() is Branch
                    ==> call_requires(
                    get_bin,
                    (crate::tree::tree::feature_at(self->Scalar_0@, i),),
                ),
        ensures
            crate::tree::tree::leads_to(
                self->Scalar_0@,
                crate::tree::tree::bin_tests(self->Scalar_0@, get_bin),
                r,
            ),
    {
        self.predict_scalar(get_bin)
    }

    /// The values for bins given by a function, of a tree with several values
    /// per leaf.
    pub fn predict_vector<F: Fn(usize) -> u8>(&self, get_bin: F) -> (r: Vec<V>)
        requires
            self is Vector,
            self->Vector_0.descends(),
            forall|i: int|
                0 <= i < self->Vector_0@.len() && (#[trigger] self->Vector_0@[i]).fork() is Branch
                    ==> call_requires(
                    get_bin,
                    (crate::tree::vector_tree::feature_of(self->Vector_0@, i),),
                ),
        ensures
            crate::tree::vector_tree::leads_to_values(
                self->Vector_0@,
                crate::tree::vector_tree::vector_bin_tests(self->Vector_0@, get_bin),
                r@,
            ),
    {
        self.as_vector().predict(get_bin)
    }

    /// The value for feature values given by a function, of a tree with one
    /// value per leaf.
    pub fn predict_raw<F: Fn(usize) -> T>(&self, get_feature: F) -> (r: V) where T: PartialOrd
        requires
            self is Scalar,
            self->Scalar_0.descends(),
            forall|i: int|
                0 <= i < self->Scalar_0@.len() && (#[trigger] self->Scalar_0@[i]).fork() is Branch
                    ==> call_requires(
                    get_feature,
                    (crate::tree::tree::feature_at(self->Scalar_0@, i),),
                ),
        ensures
            crate::tree::tree::leads_to(
                self->Scalar_0@,
                crate::tree::tree::value_tests(self->Scalar_0@, get_feature),
                r,
            ),
    {
        self.as_scalar().predict_raw(get_feature)
    }

    /// The values for feature values given by a function, of a tree with several
    /// values per leaf.
    pub fn predict_raw_vector<F: Fn(usize) -> T>(&self, get_feature: F) -> (r: Vec<V>)
        where T: PartialOrd
        requires
            self is Vector,
            self->Vector_0.descends(),
            forall|i: int|
                0 <= i < self->Vector_0@.len() && (#[trigger] self->Vector_0@[i]).fork() is Branch
                    ==> call_requires(
                    get_feature,
                    (crate::tree::vector_tree::feature_of(self->Vector_0@, i),),
                ),
        ensures
            crate::tree::vector_tree::leads_to_values(
                self->Vector_0@,
                crate::tree::vector_tree::vector_value_tests(self->Vector_0@, get_feature),
                r@,
            ),
    {
        self.as_vector().predict_raw(get_feature)
    }
}

impl<V: Number, T: Copy> EnsembleTree<V, T> {
    /// Predictions of this tree for all rows of a dataset can be added to
    /// `predictions`.
    pub open spec fn fits_batch(&self, dataset: &BinnedDataset, predictions: Seq<V>) -> bool {
        match self {
            EnsembleTree::Scalar(t) => {
                &&& t.descends()
                &&& crate::tree::tree::tests_within(t@, dataset@.len())
                &&& predictions.len() <= dataset.rows()
            },
            EnsembleTree::Vector(t) => {
                &&& t.descends()
                &&& t.values_fit()
                &&& crate::tree::vector_tree::vector_tests_within(t@, dataset@.len())
                &&& predictions.len() == dataset.rows() * t.outputs()
            },
        }
    }

    /// `after` is `before` with the predictions of this tree added.
    pub open spec fn adds_batch(
        &self,
        dataset: &BinnedDataset,
        before: Seq<V>,
        after: Seq<V>,
    ) -> bool {
        &&& after.len() == before.len()
        &&& match self {
            EnsembleTree::Scalar(t) => forall|row: int|
                0 <= row < before.len() ==> #[trigger] after[row] == crate::number::plus(
                    before[row],
                    crate::tree::tree::row_value(t@, dataset@, row),
                ),
            EnsembleTree::Vector(t) => forall|row: int|
                0 <= row < dataset.rows() ==> (#[trigger] crate::tree::vector_histogram::row_part(
                    after,
                    t.outputs(),
                    row,
                )) == crate::tree::vector_histogram::added(
                    crate::tree::vector_histogram::row_part(before, t.outputs(), row),
                    crate::tree::vector_tree::vector_row_values(t@, dataset@, row),
                ),
        }
    }

    /// Adds the predictions of this tree for each row of a dataset; with several
    /// outputs, those of a row stand side by side.
    pub fn predict_batch_add(&self, dataset: &BinnedDataset, predictions: &mut [V])
        requires
            crate::number::arithmetic::<V>(),
            self.fits_batch(dataset, old(predictions)@),
        ensures
            self.adds_batch(dataset, old(predictions)@, final(predictions)@),
    {
        match self {
            EnsembleTree::Scalar(t) => t.predict_batch_add(dataset, predictions),
            EnsembleTree::Vector(t) => {
                let ghost before = predictions@;
                let ghost nodes = t@;
                let num_rows: usize = dataset.num_rows();
                let get_bin = |sample_idx: usize, feature_idx: usize| -> (bin: u8)
                    requires
                        sample_idx < dataset.rows(),
                        feature_idx < dataset@.len(),
                    ensures
                        bin == dataset@[feature_idx as int][sample_idx as int],
                    { dataset.get_bin(sample_idx, feature_idx) };
                let ghost reader = get_bin;
                t.predict_batch_add(get_bin, num_rows, predictions);
                proof {
                    assert forall|row: int| 0 <= row < dataset.rows() implies (
                    #[trigger] crate::tree::vector_histogram::row_part(
                        predictions@,
                        t.outputs(),
                        row,
                    )) == crate::tree::vector_histogram::added(
                        crate::tree::vector_histogram::row_part(before, t.outputs(), row),
                        crate::tree::vector_tree::vector_row_values(t@, dataset@, row),
                    ) by {
                        let goes = crate::tree::vector_tree::sample_bin_tests(
                            nodes,
                            reader,
                            row as usize,
                        );
                        let x = crate::tree::vector_histogram::row_part(
                            before,
                            t.outputs(),
                            row,
                        );
                        let y = crate::tree::vector_histogram::row_part(
                            predictions@,
                            t.outputs(),
                            row,
                        );
                        assert(crate::tree::vector_tree::adds_values(nodes, goes, x, y));
                        let values = choose|values: Seq<V>|
                            #[trigger] crate::tree::vector_tree::leads_to_values(
                                nodes,
                                goes,
                                values,
                            ) && y == crate::tree::vector_histogram::added(x, values);
                        crate::tree::vector_tree::law_vector_row_and_function_agree(
                            nodes,
                            dataset@,
                            row,
                            goes,
                            values,
                        );
                    }
                }
            },
        }
    }

    /// Adds the predictions of a tree with one value per leaf for each row of
    /// feature values, stored row by row.
    pub fn predict_batch_add_raw(&self, features: &[T], num_features: usize, predictions: &mut [V])
        where T: PartialOrd
        requires
            crate::number::arithmetic::<V>(),
            self is Scalar,
            self->Scalar_0.descends(),
            crate::tree::tree::tests_within(self->Scalar_0@, num_features as nat),
            old(predictions).len() * num_features <= features.len(),
        ensures
            final(predictions).len() == old(predictions).len(),
            forall|row: int|
                0 <= row < old(predictions).len() ==> crate::tree::tree::adds_leaf(
                    self->Scalar_0@,
                    crate::tree::tree::raw_row_tests(
                        self->Scalar_0@,
                        features@,
                        num_features as int,
                        row,
                    ),
                    old(predictions)[row],
                    #[trigger] final(predictions)[row],
                ),
    {
        self.as_scalar().predict_batch_add_raw(features, num_features, predictions)
    }

    /// The nodes that are no leaves, in order: the place of each, its feature,
    /// and its hessians, added up over the outputs.
    pub fn internal_nodes(&self) -> (r: Vec<(usize, usize, V)>)
        requires
            crate::number::arithmetic::<V>(),
        ensures
            r@ == split_weights(self),
    {
        let mut list: Vec<(usize, usize, V)> = Vec::new();
        let ghost goal = split_weights(self);
        match self {
            EnsembleTree::Scalar(t) => {
                let nodes = t.internal_nodes();
                let ghost found = crate::tree::tree::places(
                    t@,
                    |n: crate::tree::node::Node<V, T>| n.fork() is Branch,
                );
                let mut k: usize = 0;
                while k < nodes.len()
                    invariant
                        k <= nodes.len(),
                        nodes.len() == found.len(),
                        goal.len() == found.len(),
                        found == crate::tree::tree::places(
                            t@,
                            |n: crate::tree::node::Node<V, T>| n.fork() is Branch,
                        ),
                        forall|j: int|
                            0 <= j < nodes.len() ==> (#[trigger] nodes[j]).0 == found[j]
                                && *nodes[j].1 == t@[nodes[j].0 as int],
                        forall|j: int|
                            0 <= j < found.len() ==> #[trigger] goal[j] == (
                                found[j] as usize,
                                crate::tree::tree::feature_at(t@, found[j]),
                                t@[found[j]].sum_hessians,
                            ),
                        list@ == goal.take(k as int),
                    decreases nodes.len() - k,
                {
                    let (idx, node) = nodes[k];
                    proof {
                        lemma_place_is_picked(
                            t@,
                            |n: crate::tree::node::Node<V, T>| n.fork() is Branch,
                            k as int,
                        );
                    }
                    match node.split_info() {
                        Some((feature_idx, _, _, _, _)) => {
                            list.push((idx, feature_idx, node.sum_hessians));
                        },
                        None => {
                            assert(false);
                        },
                    }
                    k = k + 1;
                    assert(list@ =~= goal.take(k as int));
                }
                assert(goal.take(k as int) =~= goal);
            },
            EnsembleTree::Vector(t) => {
                let nodes = t.internal_nodes();
                let ghost found = crate::tree::vector_tree::vector_places(
                    t@,
                    |n: crate::tree::vector_tree::VectorNodeView<V, T>| n.fork() is Branch,
                );
                let mut k: usize = 0;
                while k < nodes.len()
                    invariant
                        crate::number::arithmetic::<V>(),
                        k <= nodes.len(),
                        nodes.len() == found.len(),
                        goal.len() == found.len(),
                        found == crate::tree::vector_tree::vector_places(
                            t@,
                            |n: crate::tree::vector_tree::VectorNodeView<V, T>|
                                n.fork() is Branch,
                        ),
                        forall|j: int|
                            0 <= j < nodes.len() ==> (#[trigger] nodes[j]).0 == found[j]
                                && nodes[j].1@ == t@[nodes[j].0 as int],
                        forall|j: int|
                            0 <= j < found.len() ==> #[trigger] goal[j] == (
                                found[j] as usize,
                                crate::tree::vector_tree::feature_of(t@, found[j]),
                                crate::number::total(t@[found[j]].sum_hessians),
                            ),
                        list@ == goal.take(k as int),
                    decreases nodes.len() - k,
                {
                    let (idx, node) = nodes[k];
                    proof {
                        lemma_place_is_picked(
                            t@,
                            |n: crate::tree::vector_tree::VectorNodeView<V, T>|
                                n.fork() is Branch,
                            k as int,
                        );
                    }
                    match node.split_info() {
                        Some((feature_idx, _, _, _, _)) => {
                            list.push((idx, feature_idx, sum(node.sum_hessians())));
                        },
                        None => {
                            assert(false);
                        },
                    }
                    k = k + 1;
                    assert(list@ =~= goal.take(k as int));
                }
                assert(goal.take(k as int) =~= goal);
            },
        }
        list
    }
}

/// A place that was picked is the place of a node that passes.
proof fn lemma_place_is_picked<N>(nodes: Seq<N>, pick: spec_fn(N) -> bool, k: int)
    requires
        0 <= k < Seq::new(nodes.len(), |i: int| i).filter(|i: int| pick(nodes[i])).len(),
    ensures
        ({
            let i = Seq::new(nodes.len(), |i: int| i).filter(|i: int| pick(nodes[i]))[k];
            0 <= i < nodes.len() && pick(nodes[i])
        }),
{
    let all = Seq::new(nodes.len(), |i: int| i);
    let keep = |i: int| pick(nodes[i]);
    all.lemma_filter_pred(keep, k);
    let found = all.filter(keep);
    assert(found.contains(found[k]));
    all.lemma_filter_contains_rev(keep, found[k]);
}

impl<V, T> From<Tree<V, T>> for EnsembleTree<V, T> {
    fn from(tree: Tree<V, T>) -> (r: Self) {
        EnsembleTree::Scalar(tree)
    }
}

impl<V, T> vstd::std_specs::convert::FromSpecImpl<Tree<V, T>> for EnsembleTree<V, T> {
    open spec fn obeys_from_spec() -> bool {
        true
    }

    open spec fn from_spec(tree: Tree<V, T>) -> Self {
        EnsembleTree::Scalar(tree)
    }
}

impl<V, T> From<VectorTree<V, T>> for EnsembleTree<V, T> {
    fn from(tree: VectorTree<V, T>) -> (r: Self) {
        EnsembleTree::Vector(tree)
    }
}

impl<V, T> vstd::std_specs::convert::FromSpecImpl<VectorTree<V, T>> for EnsembleTree<V, T> {
    open spec fn obeys_from_spec() -> bool {
        true
    }

    open spec fn from_spec(tree: VectorTree<V, T>) -> Self {
        EnsembleTree::Vector(tree)
    }
}

/// A tree adds to the sum for a row what it predicts for that row.
pub proof fn law_trees_add_up<V: Number, T: Copy>(
    worth: spec_fn(V) -> real,
    tree: EnsembleTree<V, T>,
    dataset: BinnedDataset,
    before: Seq<V>,
    after: Seq<V>,
    row: int,
    k: int,
)
    requires
        crate::exact::exact(worth),
        tree.fits_batch(&dataset, before),
        tree.adds_batch(&dataset, before, after),
        0 <= row < dataset.rows(),
        tree is Scalar ==> row < before.len(),
        tree matches EnsembleTree::Vector(t) ==> 0 <= k < t.outputs(),
    ensures
        match tree {
            EnsembleTree::Scalar(t) => worth(after[row]) - worth(before[row]) == worth(
                crate::tree::tree::row_value(t@, dataset@, row),
            ),
            EnsembleTree::Vector(t) => worth(after[row * t.outputs() + k]) - worth(
                before[row * t.outputs() + k],
            ) == worth(crate::tree::vector_tree::vector_row_values(t@, dataset@, row)[k]),
        },
{
    match tree {
        EnsembleTree::Scalar(_) => {},
        EnsembleTree::Vector(t) => {
            let n = t.outputs();
            let part = crate::tree::vector_histogram::row_part(after, n, row);
            assert(part[k] == after[row * n + k]);
            assert(crate::tree::vector_histogram::row_part(before, n, row)[k] == before[row * n
                + k]);
        },
    }
}

/// Feature importance reads each node that is no leaf, and no other, with the
/// feature and the hessians of that node.
pub proof fn law_importance_reads_branches<V: Number, T: Copy>(tree: Tree<V, T>, i: int, k: int)
    requires
        0 <= i < tree@.len() <= usize::MAX,
        0 <= k < split_weights(&EnsembleTree::Scalar(tree)).len(),
    ensures
        ({
            let read = split_weights(&EnsembleTree::Scalar(tree));
            let (place, feature, hessians) = read[k];
            &&& place < tree@.len()
            &&& tree@[place as int].fork() is Branch
            &&& feature == crate::tree::tree::feature_at(tree@, place as int)
            &&& hessians == tree@[place as int].sum_hessians
            &&& tree@[i].fork() is Branch ==> exists|j: int|
                0 <= j < read.len() && (#[trigger] read[j]).0 == i
        }),
{
    let pick = |n: crate::tree::node::Node<V, T>| n.fork() is Branch;
    let places = crate::tree::tree::places(tree@, pick);
    let read = split_weights(&EnsembleTree::Scalar(tree));
    lemma_place_is_picked(tree@, pick, k);
    if tree@[i].fork() is Branch {
        let all = Seq::new(tree@.len(), |p: int| p);
        let keep = |p: int| pick(tree@[p]);
        assert(all[i] == i);
        all.lemma_filter_contains(keep, i);
        let j = choose|j: int| 0 <= j < places.len() && places[j] == i;
        assert(read[j].0 == i);
    }
}

} // verus!
