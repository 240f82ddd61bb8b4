//! Growing a tree with several outputs, best split first.
//!
//! Growth goes as for one output, with the gains of all outputs added up. The
//! rows of a split leaf are divided in place, so that their order among
//! themselves may change.

use crate::error::Result;
use crate::number::{lowest_number, Number};
use crate::tree::dataset::BinnedDataset;
use crate::tree::histogram::NUM_BINS;
use crate::tree::partition::RowPartitioner;
use crate::tree::shape::Fork;
use crate::tree::split::leaf_weight;
use crate::tree::vector_histogram::{zero_list, Bin, VectorNodeHistograms};
use crate::tree::vector_split::{Division, VectorSplitFinder, VectorSplitInfo};
use crate::tree::vector_tree::{
    copy_list, VectorNode, VectorNodeType, VectorNodeView, VectorTree,
};
use vstd::multiset::Multiset;
use vstd::prelude::*;

verus! {

/// The settings by which a tree with several outputs is grown.
#[derive(Debug, Clone)]
pub struct VectorTreeGrower<V> {
    /// The number of outputs.
    pub num_outputs: usize,
    /// The greatest depth of a node.
    pub max_depth: usize,
    /// The greatest number of leaves.
    pub max_leaves: usize,
    /// The L2 regularization.
    pub lambda: V,
    /// The least number of rows of a leaf.
    pub min_samples_leaf: usize,
    /// The least sum of hessians of a leaf, for every output.
    pub min_hessian_leaf: V,
    /// The least gain of a split.
    pub min_gain: V,
    /// The factor by which the values of leaves are shrunk.
    pub learning_rate: V,
}

/// What a tree with several outputs is grown from.
pub struct VectorProblem<V, S> {
    /// How splits are found.
    pub finder: VectorSplitFinder<V>,
    /// The greatest depth of a node.
    pub max_depth: nat,
    /// The greatest number of leaves.
    pub max_leaves: nat,
    /// The factor by which the values of leaves are shrunk.
    pub learning_rate: V,
    /// The number of rows of the data.
    pub num_rows: nat,
    /// The bins, column by column.
    pub columns: Seq<Seq<u8>>,
    /// The gradients, row by row, one per output.
    pub gradients: Seq<V>,
    /// The hessians, row by row, one per output.
    pub hessians: Seq<V>,
    /// The rows to grow from.
    pub rows: Seq<usize>,
    /// The value at which a split of a feature after a bin divides.
    pub split_value: S,
}

/// A leaf that waits to be split.
pub struct VectorCandidate<V> {
    /// The place of the leaf.
    pub node: int,
    /// Its rows.
    pub rows: Seq<usize>,
    /// The histograms of its rows.
    pub hist: Seq<Seq<Bin<V>>>,
    /// Its best split, if it has one.
    pub split: Option<Division<V>>,
}

/// A tree that is being grown.
pub struct VectorGrowth<V, T> {
    /// The nodes so far.
    pub nodes: Seq<VectorNodeView<V, T>>,
    /// The rows at each node.
    pub rows_at: Seq<Multiset<usize>>,
    /// The leaves that wait.
    pub open: Seq<VectorCandidate<V>>,
    /// The number of leaves.
    pub leaves: nat,
}

/// The sums over `rows` of a buffer with `k` entries per row.
pub open spec fn row_totals<V: Number>(buffer: Seq<V>, k: nat, rows: Seq<usize>) -> Seq<V>
    decreases rows.len(),
{
    if rows.len() == 0 {
        crate::tree::vector_histogram::zeros(k)
    } else {
        crate::tree::vector_histogram::added(
            row_totals(buffer, k, rows.drop_last()),
            crate::tree::vector_histogram::row_part(buffer, k, rows.last() as int),
        )
    }
}

/// The values of a leaf with the given sums, shrunk.
pub open spec fn shrunk_weights<V: Number>(
    gradients: Seq<V>,
    hessians: Seq<V>,
    lambda: V,
    learning_rate: V,
) -> Seq<V> {
    Seq::new(
        gradients.len(),
        |k: int|
            crate::number::times(
                crate::tree::split::weight(gradients[k], hessians[k], lambda),
                learning_rate,
            ),
    )
}

impl<V: Number> VectorCandidate<V> {
    /// What the best split gains; less than anything, if there is none.
    pub open spec fn gain(self) -> V {
        match self.split {
            Some(d) => d.gain,
            None => crate::number::lowest(),
        }
    }
}

/// No waiting leaf has a split that gains more than that of leaf `i`.
pub open spec fn vector_gains_most<V: Number>(open: Seq<VectorCandidate<V>>, i: int) -> bool {
    &&& 0 <= i < open.len()
    &&& forall|j: int|
        0 <= j < open.len() ==> !crate::number::above((#[trigger] open[j]).gain(), open[i].gain())
}

impl<V: Number, T, S: Fn(usize, u8) -> T> VectorProblem<V, S> {
    /// The number of outputs.
    pub open spec fn outputs(self) -> nat {
        self.finder.num_outputs as nat
    }

    /// The data fit together.
    pub open spec fn wf(self) -> bool {
        &&& self.rows.len() <= u32::MAX
        &&& self.max_depth <= usize::MAX
        &&& self.columns.len() <= usize::MAX
        &&& 2 * self.outputs() <= usize::MAX
        &&& 2 * self.finder.min_samples_leaf <= u32::MAX
        &&& self.gradients.len() == self.num_rows * self.outputs()
        &&& self.hessians.len() == self.num_rows * self.outputs()
        &&& forall|f: int|
            0 <= f < self.columns.len() ==> (#[trigger] self.columns[f]).len() == self.num_rows
        &&& forall|i: int| 0 <= i < self.rows.len() ==> (#[trigger] self.rows[i]) < self.num_rows
    }

    /// A leaf with the given sums.
    pub open spec fn leaf(
        self,
        gradients: Seq<V>,
        hessians: Seq<V>,
        depth: nat,
        rows: nat,
    ) -> VectorNodeView<V, T> {
        VectorNodeView {
            test: None,
            values: shrunk_weights(gradients, hessians, self.finder.lambda, self.learning_rate),
            depth,
            num_samples: rows,
            sum_gradients: gradients,
            sum_hessians: hessians,
        }
    }

    /// The best split with the given histograms, if there is one.
    pub open spec fn best(self, hist: Seq<Seq<Bin<V>>>) -> Option<Division<V>> {
        let d = self.finder.best_over(
            hist,
            crate::tree::split::looked_at(None, self.columns.len()),
        );
        if d.valid() {
            Some(d)
        } else {
            None
        }
    }

    /// `c` waits at `node` with the given rows.
    pub open spec fn waits(self, c: VectorCandidate<V>, node: int, rows: Seq<usize>) -> bool {
        &&& c.node == node
        &&& c.rows == rows
        &&& c.split == self.best(c.hist)
    }

    /// Growth begins with a root that holds all rows.
    pub open spec fn begins(self, s: VectorGrowth<V, T>) -> bool {
        let g = row_totals(self.gradients, self.outputs(), self.rows);
        let h = row_totals(self.hessians, self.outputs(), self.rows);
        &&& s.nodes == seq![self.leaf(g, h, 0, self.rows.len())]
        &&& s.rows_at == seq![self.rows.to_multiset()]
        &&& s.leaves == 1
        &&& s.open.len() == 1
        &&& self.waits(s.open[0], 0, self.rows)
        &&& crate::tree::vector_histogram::are_histograms_of(
            s.open[0].hist,
            self.gradients,
            self.hessians,
            self.outputs(),
            self.columns,
            self.rows,
        )
    }

    /// Leaf `c` is split when its turn comes: it has a split and is not too
    /// deep.
    pub open spec fn splittable(self, s: VectorGrowth<V, T>, c: VectorCandidate<V>) -> bool {
        &&& c.split is Some
        &&& s.nodes[c.node].depth < self.max_depth
    }

    /// The nodes once leaf `c` has been split, where the split divides at `v`
    /// and leads so many rows to either side.
    pub open spec fn nodes_after(
        self,
        s: VectorGrowth<V, T>,
        c: VectorCandidate<V>,
        v: T,
        lefts: nat,
        rights: nat,
    ) -> Seq<VectorNodeView<V, T>> {
        let d = c.split->Some_0;
        let depth = s.nodes[c.node].depth + 1;
        s.nodes.update(
            c.node,
            VectorNodeView {
                test: Some(
                    (
                        d.feature_idx,
                        d.bin_threshold,
                        v,
                        s.nodes.len() as int,
                        (s.nodes.len() + 1) as int,
                    ),
                ),
                values: Seq::empty(),
                ..s.nodes[c.node]
            },
        ).push(
            self.leaf(
                crate::tree::vector_split::every_other(d.left, 0),
                crate::tree::vector_split::every_other(d.left, 1),
                depth,
                lefts,
            ),
        ).push(
            self.leaf(
                crate::tree::vector_split::every_other(d.right, 0),
                crate::tree::vector_split::every_other(d.right, 1),
                depth,
                rights,
            ),
        )
    }

    /// The new leaves wait: `small` is the one with fewer rows, with histograms
    /// of its own, and `large` the other, with the histograms that remain.
    pub open spec fn children_wait(
        self,
        n: int,
        c: VectorCandidate<V>,
        left: Seq<usize>,
        right: Seq<usize>,
        small: VectorCandidate<V>,
        large: VectorCandidate<V>,
    ) -> bool {
        &&& if left.len() <= right.len() {
            &&& self.waits(small, n, left)
            &&& self.waits(large, n + 1, right)
        } else {
            &&& self.waits(small, n + 1, right)
            &&& self.waits(large, n, left)
        }
        &&& crate::tree::vector_histogram::are_histograms_of(
            small.hist,
            self.gradients,
            self.hessians,
            self.outputs(),
            self.columns,
            small.rows,
        )
        &&& crate::tree::vector_histogram::are_bin_differences(large.hist, c.hist, small.hist)
    }

    /// Leaf `c`, which was waiting, is split, and its rows become `left` and
    /// `right`; `rest` are those that wait on.
    pub open spec fn splits_into(
        self,
        s: VectorGrowth<V, T>,
        c: VectorCandidate<V>,
        rest: Seq<VectorCandidate<V>>,
        left: Seq<usize>,
        right: Seq<usize>,
        t: VectorGrowth<V, T>,
    ) -> bool {
        let d = c.split->Some_0;
        &&& crate::tree::partition::divides(
            self.columns[d.feature_idx as int],
            c.rows,
            d.bin_threshold,
            left,
            right,
        )
        &&& exists|v: T|
            #[trigger] call_ensures(self.split_value, (d.feature_idx, d.bin_threshold), v)
                && t.nodes == self.nodes_after(s, c, v, left.len(), right.len())
        &&& t.rows_at == s.rows_at.push(left.to_multiset()).push(right.to_multiset())
        &&& t.leaves == s.leaves + 1
        &&& if t.leaves >= self.max_leaves {
            t.open == rest
        } else {
            exists|small: VectorCandidate<V>, large: VectorCandidate<V>|
                #[trigger] self.children_wait(
                    s.nodes.len() as int,
                    c,
                    left,
                    right,
                    small,
                    large,
                ) && t.open == rest.push(small).push(large)
        }
    }

    /// The turn of waiting leaf `i` leads from `s` to `t`.
    pub open spec fn steps(self, s: VectorGrowth<V, T>, i: int, t: VectorGrowth<V, T>) -> bool {
        &&& vector_gains_most(s.open, i)
        &&& s.leaves < self.max_leaves
        &&& if self.splittable(s, s.open[i]) {
            exists|left: Seq<usize>, right: Seq<usize>|
                #[trigger] self.splits_into(s, s.open[i], s.open.remove(i), left, right, t)
        } else {
            t == (VectorGrowth { open: s.open.remove(i), ..s })
        }
    }

    /// Growth may have come to `s` after `n` turns.
    pub open spec fn grows(self, n: nat, s: VectorGrowth<V, T>) -> bool
        decreases n,
    {
        if n == 0 {
            self.begins(s)
        } else {
            exists|before: VectorGrowth<V, T>, i: int|
                self.grows((n - 1) as nat, before) && #[trigger] self.steps(before, i, s)
        }
    }

    /// Growth ends: no leaf waits, or there are enough.
    pub open spec fn ends(self, s: VectorGrowth<V, T>) -> bool {
        s.open.len() == 0 || s.leaves >= self.max_leaves
    }
}

/// The tests of a tree on the rows of the data.
pub open spec fn vector_route<V, T>(
    nodes: Seq<VectorNodeView<V, T>>,
    columns: Seq<Seq<u8>>,
) -> spec_fn(int, usize) -> bool {
    |i: int, r: usize|
        columns[crate::tree::vector_tree::feature_of(nodes, i) as int][r as int]
            <= crate::tree::vector_tree::threshold_of(nodes, i)
}

/// A child is one step deeper than its parent.
pub open spec fn vector_depths_agree<V, T>(nodes: Seq<VectorNodeView<V, T>>) -> bool {
    &&& nodes[0].depth == 0
    &&& forall|i: int|
        0 <= i < nodes.len() && (#[trigger] nodes[i]).fork() is Branch
            ==> nodes[nodes[i].fork()->left].depth == nodes[i].depth + 1
            && nodes[nodes[i].fork()->right].depth == nodes[i].depth + 1
}

/// Every histogram has a pair of sums per output in each bin.
pub open spec fn all_vector_histograms<V>(h: Seq<Seq<Bin<V>>>, num_outputs: nat) -> bool {
    forall|f: int|
        0 <= f < h.len() ==> crate::tree::vector_histogram::is_vector_histogram(
            #[trigger] h[f],
            num_outputs,
        )
}

impl<V: Number, T, S: Fn(usize, u8) -> T> VectorProblem<V, S> {
    /// Waiting leaf `c` is a leaf, and its rows and their histograms are right.
    pub open spec fn sound_candidate(self, s: VectorGrowth<V, T>, c: VectorCandidate<V>) -> bool {
        &&& 0 <= c.node < s.nodes.len()
        &&& s.nodes[c.node].fork() is End
        &&& c.rows.to_multiset() == s.rows_at[c.node]
        &&& c.rows.len() <= self.rows.len()
        &&& forall|k: int| 0 <= k < c.rows.len() ==> (#[trigger] c.rows[k]) < self.num_rows
        &&& all_vector_histograms(c.hist, self.outputs())
        &&& crate::tree::vector_histogram::all_count_rows(c.hist, self.columns, c.rows)
        &&& c.split is Some ==> c.split->Some_0.feature_idx < self.columns.len()
            && c.split->Some_0.left.len() == 2 * self.outputs() && c.split->Some_0.right.len() == 2
            * self.outputs()
    }

    /// The tree so far is a tree: every row is where its tests lead, every node
    /// knows how many rows it has and how deep it is, every leaf has a value
    /// per output, and the limits are kept.
    pub open spec fn sound_tree(self, s: VectorGrowth<V, T>) -> bool {
        let shape = crate::tree::vector_tree::vector_shape(s.nodes);
        &&& crate::tree::routing::routed(
            shape,
            vector_route(s.nodes, self.columns),
            s.rows_at,
            self.rows.to_multiset(),
        )
        &&& crate::tree::shape::leaf_count(shape) == s.leaves
        &&& s.nodes.len() == 2 * s.leaves - 1
        &&& s.leaves <= 1 || s.leaves <= self.max_leaves
        &&& crate::tree::vector_tree::vector_tests_within(s.nodes, self.columns.len())
        &&& vector_depths_agree(s.nodes)
        &&& forall|i: int|
            0 <= i < s.nodes.len() ==> (#[trigger] s.nodes[i]).depth <= self.max_depth
                && s.nodes[i].num_samples == s.rows_at[i].len()
        &&& forall|i: int|
            0 <= i < s.nodes.len() && (#[trigger] s.nodes[i]).fork() is End
                ==> s.nodes[i].values.len() == self.outputs()
    }

    /// The tree so far is a tree, and the waiting leaves are different leaves
    /// of it.
    pub open spec fn sound(self, s: VectorGrowth<V, T>) -> bool {
        &&& self.sound_tree(s)
        &&& forall|j: int| 0 <= j < s.open.len() ==> self.sound_candidate(s, #[trigger] s.open[j])
        &&& forall|j: int, k: int|
            0 <= j < k < s.open.len() ==> (#[trigger] s.open[j]).node != (
            #[trigger] s.open[k]).node
    }
}

proof fn lemma_row_totals_len<V: Number>(buffer: Seq<V>, k: nat, rows: Seq<usize>)
    ensures
        row_totals(buffer, k, rows).len() == k,
    decreases rows.len(),
{
    if rows.len() > 0 {
        lemma_row_totals_len(buffer, k, rows.drop_last());
    }
}

proof fn lemma_sums_below_len<V: Number>(bins: Seq<Bin<V>>, num_outputs: nat, n: int)
    ensures
        crate::tree::vector_histogram::sums_below(bins, num_outputs, n).len() == 2 * num_outputs,
    decreases n,
{
    if n > 0 {
        lemma_sums_below_len(bins, num_outputs, n - 1);
    }
}

impl<V: Number, T, S: Fn(usize, u8) -> T> VectorProblem<V, S> {
    /// A best split is on a feature that exists, with a pair of sums per
    /// output.
    proof fn lemma_best_in_range(self, hist: Seq<Seq<Bin<V>>>)
        requires
            self.columns.len() <= usize::MAX,
        ensures
            self.best(hist) is Some ==> self.best(hist)->Some_0.feature_idx < self.columns.len()
                && self.best(hist)->Some_0.left.len() == 2 * self.outputs()
                && self.best(hist)->Some_0.right.len() == 2 * self.outputs(),
    {
        if self.best(hist) is Some {
            let order = crate::tree::split::looked_at(None, self.columns.len());
            let d = self.finder.best_over(hist, order);
            crate::tree::vector_split::lemma_best_over_is_found(&self.finder, hist, order);
            assert(order.contains(d.feature_idx) || d == crate::tree::vector_split::no_division::<
                V,
            >(0, self.outputs()));
            if order.contains(d.feature_idx) {
                let i = choose|i: int| 0 <= i < order.len() && order[i] == d.feature_idx;
                assert(order[i] == i as usize);
                let f = d.feature_idx;
                let bins = hist[f as int];
                crate::tree::vector_split::law_vector_best_is_admissible(
                    &self.finder,
                    bins,
                    f,
                    NUM_BINS - 1,
                );
                if d != crate::tree::vector_split::no_division::<V>(f, self.outputs()) {
                    let b = choose|b: int|
                        1 <= b <= NUM_BINS - 1 && d == #[trigger] self.finder.division_after(
                            bins,
                            f,
                            b,
                        );
                    lemma_sums_below_len(bins, self.outputs(), b);
                    lemma_sums_below_len(bins, self.outputs(), NUM_BINS as int);
                }
            }
        }
    }

    /// Histograms of rows count them, and have a pair of sums per output.
    proof fn lemma_histograms_count(self, hist: Seq<Seq<Bin<V>>>, rows: Seq<usize>)
        requires
            rows.len() <= u32::MAX,
            crate::tree::vector_histogram::are_histograms_of(
                hist,
                self.gradients,
                self.hessians,
                self.outputs(),
                self.columns,
                rows,
            ),
        ensures
            all_vector_histograms(hist, self.outputs()),
            crate::tree::vector_histogram::all_count_rows(hist, self.columns, rows),
    {
        assert forall|f: int|
            0 <= f < hist.len() implies crate::tree::vector_histogram::is_vector_histogram(
            #[trigger] hist[f],
            self.outputs(),
        ) && crate::tree::histogram::counts_rows(
            crate::tree::vector_histogram::counts_only(hist[f]),
            self.columns[f],
            rows,
        ) by {
            let plain = crate::tree::vector_histogram::counts_only(hist[f]);
            assert forall|b: int| 0 <= b < NUM_BINS implies (#[trigger] hist[f][b]).sums.len() == 2
                * self.outputs() && plain[b].count == crate::tree::histogram::bin_count(
                self.columns[f],
                rows,
                b,
            ) by {
                crate::tree::vector_histogram::lemma_bin_of(
                    self.gradients,
                    self.hessians,
                    self.outputs(),
                    self.columns[f],
                    rows,
                    b,
                );
            }
            assert forall|b: int| 0 <= b < NUM_BINS implies (#[trigger] plain[b]).count
                == crate::tree::histogram::bin_count(self.columns[f], rows, b) by {
                assert(hist[f][b].sums.len() == 2 * self.outputs());
            }
        }
    }

    /// What remains counts the other rows.
    proof fn lemma_difference_counts(
        self,
        large: Seq<Seq<Bin<V>>>,
        parent: Seq<Seq<Bin<V>>>,
        small: Seq<Seq<Bin<V>>>,
        rows: Seq<usize>,
        tested: Seq<u8>,
        threshold: u8,
        left: Seq<usize>,
        right: Seq<usize>,
        left_is_small: bool,
    )
        requires
            crate::tree::partition::divides(tested, rows, threshold, left, right),
            crate::tree::vector_histogram::are_bin_differences(large, parent, small),
            all_vector_histograms(parent, self.outputs()),
            crate::tree::vector_histogram::all_count_rows(parent, self.columns, rows),
            crate::tree::vector_histogram::all_count_rows(
                small,
                self.columns,
                if left_is_small {
                    left
                } else {
                    right
                },
            ),
        ensures
            all_vector_histograms(large, self.outputs()),
            crate::tree::vector_histogram::all_count_rows(
                large,
                self.columns,
                if left_is_small {
                    right
                } else {
                    left
                },
            ),
    {
        let few = if left_is_small {
            left
        } else {
            right
        };
        let many = if left_is_small {
            right
        } else {
            left
        };
        assert forall|f: int|
            0 <= f < large.len() implies crate::tree::vector_histogram::is_vector_histogram(
            #[trigger] large[f],
            self.outputs(),
        ) && crate::tree::histogram::counts_rows(
            crate::tree::vector_histogram::counts_only(large[f]),
            self.columns[f],
            many,
        ) by {
            let column = self.columns[f];
            let plain_l = crate::tree::vector_histogram::counts_only(large[f]);
            let plain_p = crate::tree::vector_histogram::counts_only(parent[f]);
            let plain_s = crate::tree::vector_histogram::counts_only(small[f]);
            assert(crate::tree::vector_histogram::is_bin_difference(
                large[f],
                parent[f],
                small[f],
            ));
            assert(crate::tree::vector_histogram::is_vector_histogram(parent[f], self.outputs()));
            assert(crate::tree::histogram::counts_rows(plain_p, column, rows));
            assert(crate::tree::histogram::counts_rows(plain_s, column, few));
            assert forall|b: int| 0 <= b < NUM_BINS implies (#[trigger] large[f][b]).sums.len()
                == 2 * self.outputs() && large[f][b].count == crate::tree::histogram::bin_count(
                column,
                many,
                b,
            ) by {
                crate::tree::histogram::lemma_bin_count_divided(
                    column,
                    rows,
                    tested,
                    threshold,
                    left,
                    right,
                    b,
                );
                assert(plain_p[b].count == crate::tree::histogram::bin_count(column, rows, b));
                assert(plain_s[b].count == crate::tree::histogram::bin_count(column, few, b));
                assert(parent[f][b].sums.len() == 2 * self.outputs());
            }
            assert forall|b: int| 0 <= b < NUM_BINS implies (#[trigger] plain_l[b]).count
                == crate::tree::histogram::bin_count(column, many, b) by {
                assert(large[f][b].count == crate::tree::histogram::bin_count(column, many, b));
            }
        }
    }

    /// Growth begins soundly.
    proof fn lemma_begins_sound(self, s: VectorGrowth<V, T>)
        requires
            self.wf(),
            self.begins(s),
        ensures
            self.sound(s),
    {
        broadcast use vstd::seq_lib::group_to_multiset_ensures;

        let shape = crate::tree::vector_tree::vector_shape(s.nodes);
        assert(shape =~= seq![Fork::End]);
        crate::tree::shape::lemma_leaf_count_push(Seq::empty(), Fork::End);
        assert(Seq::<Fork>::empty().push(Fork::End) =~= shape);
        lemma_row_totals_len(self.gradients, self.outputs(), self.rows);
        self.lemma_histograms_count(s.open[0].hist, self.rows);
        self.lemma_best_in_range(s.open[0].hist);
        assert(self.sound_candidate(s, s.open[0]));
    }

    /// Splitting a leaf leaves a tree.
    proof fn lemma_split_tree_sound(
        self,
        s: VectorGrowth<V, T>,
        c: VectorCandidate<V>,
        rest: Seq<VectorCandidate<V>>,
        left: Seq<usize>,
        right: Seq<usize>,
        t: VectorGrowth<V, T>,
    )
        requires
            self.wf(),
            self.sound_tree(s),
            self.sound_candidate(s, c),
            self.splittable(s, c),
            s.leaves < self.max_leaves,
            self.splits_into(s, c, rest, left, right, t),
        ensures
            self.sound_tree(t),
            t.nodes.len() == s.nodes.len() + 2,
            forall|i: int|
                0 <= i < s.nodes.len() && i != c.node ==> #[trigger] t.nodes[i] == s.nodes[i],
            t.nodes[s.nodes.len() as int].fork() is End,
            t.nodes[(s.nodes.len() + 1) as int].fork() is End,
    {
        broadcast use vstd::seq_lib::group_to_multiset_ensures;

        let d = c.split->Some_0;
        let column = self.columns[d.feature_idx as int];
        let v = choose|v: T|
            #[trigger] call_ensures(self.split_value, (d.feature_idx, d.bin_threshold), v)
                && t.nodes == self.nodes_after(s, c, v, left.len(), right.len());
        let n = s.nodes.len() as int;
        let k = c.node;
        let before = crate::tree::vector_tree::vector_shape(s.nodes);
        let shape = crate::tree::vector_tree::vector_shape(t.nodes);
        let branch = Fork::Branch { left: n, right: n + 1 };
        let old_route = vector_route(s.nodes, self.columns);
        let new_route = vector_route(t.nodes, self.columns);
        assert(before[k] == s.nodes[k].fork());
        assert(t.nodes[k].fork() == branch);
        assert(shape =~= before.update(k, branch).push(Fork::End).push(Fork::End));
        let keep_l = |r: usize| column[r as int] <= d.bin_threshold;
        let keep_r = |r: usize| !(column[r as int] <= d.bin_threshold);
        let on_l = |r: usize| new_route(k, r) == true;
        let on_r = |r: usize| new_route(k, r) == false;
        assert(keep_l =~= on_l);
        assert(keep_r =~= on_r);
        assert(left.to_multiset() == s.rows_at[k].filter(keep_l));
        assert(right.to_multiset() == s.rows_at[k].filter(keep_r));
        assert(crate::tree::routing::side(s.rows_at[k], new_route, k, true)
            == s.rows_at[k].filter(on_l));
        assert(crate::tree::routing::side(s.rows_at[k], new_route, k, false)
            == s.rows_at[k].filter(on_r));
        crate::tree::routing::lemma_split_routed(
            before,
            old_route,
            new_route,
            s.rows_at,
            self.rows.to_multiset(),
            k,
        );
        assert(t.rows_at =~= s.rows_at.push(
            crate::tree::routing::side(s.rows_at[k], new_route, k, true),
        ).push(crate::tree::routing::side(s.rows_at[k], new_route, k, false)));
        crate::tree::shape::lemma_leaf_count_split(before, k, branch);
        crate::tree::shape::lemma_leaf_count_push(before.update(k, branch), Fork::End);
        crate::tree::shape::lemma_leaf_count_push(
            before.update(k, branch).push(Fork::End),
            Fork::End,
        );
        assert forall|i: int|
            0 <= i < t.nodes.len() && (#[trigger] t.nodes[i]).fork() is Branch implies t.nodes[t.nodes[i].fork()->left].depth
            == t.nodes[i].depth + 1 && t.nodes[t.nodes[i].fork()->right].depth == t.nodes[i].depth
            + 1 by {
            if i != k {
                assert(t.nodes[i] == s.nodes[i]);
                assert(before[i] is Branch);
                let l = s.nodes[i].fork()->left;
                let r = s.nodes[i].fork()->right;
                assert(t.nodes[l].depth == s.nodes[l].depth);
                assert(t.nodes[r].depth == s.nodes[r].depth);
            }
        }
        assert forall|i: int| 0 <= i < t.nodes.len() implies (#[trigger] t.nodes[i]).depth
            <= self.max_depth && t.nodes[i].num_samples == t.rows_at[i].len() by {
            if i < n {
                assert(t.nodes[i].depth == s.nodes[i].depth);
                assert(t.nodes[i].num_samples == s.nodes[i].num_samples);
            }
        }
    }

    /// Splitting a leaf keeps growth sound.
    proof fn lemma_split_sound(
        self,
        s: VectorGrowth<V, T>,
        i: int,
        left: Seq<usize>,
        right: Seq<usize>,
        t: VectorGrowth<V, T>,
    )
        requires
            self.wf(),
            self.sound(s),
            0 <= i < s.open.len(),
            self.splittable(s, s.open[i]),
            s.leaves < self.max_leaves,
            self.splits_into(s, s.open[i], s.open.remove(i), left, right, t),
        ensures
            self.sound(t),
    {
        let c = s.open[i];
        let rest = s.open.remove(i);
        self.lemma_split_tree_sound(s, c, rest, left, right, t);
        let n = s.nodes.len() as int;
        assert forall|j: int| 0 <= j < rest.len() implies self.sound_candidate(
            t,
            #[trigger] rest[j],
        ) && rest[j].node < n by {
            let o: int = if j < i {
                j
            } else {
                j + 1
            };
            assert(rest[j] == s.open[o]);
            assert(self.sound_candidate(s, s.open[o]));
            assert(s.open[o].node != c.node);
        }
        assert forall|j: int, k: int| 0 <= j < k < rest.len() implies (#[trigger] rest[j]).node != (
        #[trigger] rest[k]).node by {
            let oj: int = if j < i {
                j
            } else {
                j + 1
            };
            let ok: int = if k < i {
                k
            } else {
                k + 1
            };
            assert(rest[j] == s.open[oj] && rest[k] == s.open[ok]);
        }
        if t.leaves < self.max_leaves {
            let (small, large) = choose|small: VectorCandidate<V>, large: VectorCandidate<V>|
                #[trigger] self.children_wait(
                    s.nodes.len() as int,
                    c,
                    left,
                    right,
                    small,
                    large,
                ) && t.open == rest.push(small).push(large);
            let d = c.split->Some_0;
            let column = self.columns[d.feature_idx as int];
            crate::tree::partition::law_division_is_complete(
                column,
                c.rows,
                d.bin_threshold,
                left,
                right,
            );
            assert forall|k: int| 0 <= k < left.len() implies (#[trigger] left[k])
                < self.num_rows by {
                let m = choose|m: int| 0 <= m < c.rows.len() && c.rows[m] == left[k];
                assert(c.rows[m] < self.num_rows);
            }
            assert forall|k: int| 0 <= k < right.len() implies (#[trigger] right[k])
                < self.num_rows by {
                let m = choose|m: int| 0 <= m < c.rows.len() && c.rows[m] == right[k];
                assert(c.rows[m] < self.num_rows);
            }
            self.lemma_histograms_count(small.hist, small.rows);
            self.lemma_difference_counts(
                large.hist,
                c.hist,
                small.hist,
                c.rows,
                column,
                d.bin_threshold,
                left,
                right,
                left.len() <= right.len(),
            );
            self.lemma_best_in_range(small.hist);
            self.lemma_best_in_range(large.hist);
            assert(self.sound_candidate(t, small));
            assert(self.sound_candidate(t, large));
            assert forall|j: int| 0 <= j < t.open.len() implies self.sound_candidate(
                t,
                #[trigger] t.open[j],
            ) by {
                if j < rest.len() {
                    assert(t.open[j] == rest[j]);
                }
            }
            assert forall|j: int, k: int| 0 <= j < k < t.open.len() implies (
            #[trigger] t.open[j]).node != (#[trigger] t.open[k]).node by {
                if j < rest.len() {
                    assert(t.open[j] == rest[j]);
                    assert(rest[j].node < n);
                }
                if k < rest.len() {
                    assert(t.open[k] == rest[k]);
                }
            }
        }
    }

    /// A turn keeps growth sound.
    proof fn lemma_step_sound(self, s: VectorGrowth<V, T>, i: int, t: VectorGrowth<V, T>)
        requires
            self.wf(),
            self.sound(s),
            self.steps(s, i, t),
        ensures
            self.sound(t),
    {
        if self.splittable(s, s.open[i]) {
            let (left, right) = choose|left: Seq<usize>, right: Seq<usize>|
                #[trigger] self.splits_into(s, s.open[i], s.open.remove(i), left, right, t);
            self.lemma_split_sound(s, i, left, right, t);
        } else {
            assert forall|j: int| 0 <= j < t.open.len() implies self.sound_candidate(
                t,
                #[trigger] t.open[j],
            ) by {
                let o: int = if j < i {
                    j
                } else {
                    j + 1
                };
                assert(t.open[j] == s.open[o]);
                assert(self.sound_candidate(s, s.open[o]));
            }
            assert forall|j: int, k: int| 0 <= j < k < t.open.len() implies (
            #[trigger] t.open[j]).node != (#[trigger] t.open[k]).node by {
                let oj: int = if j < i {
                    j
                } else {
                    j + 1
                };
                let ok: int = if k < i {
                    k
                } else {
                    k + 1
                };
                assert(t.open[j] == s.open[oj] && t.open[k] == s.open[ok]);
            }
        }
    }

    /// Growth is sound at every moment: what it has is a tree, in which every
    /// row is where its tests lead, with `2n - 1` nodes for `n` leaves, a value
    /// per output in each leaf, within the limits on leaves and depth.
    pub proof fn law_vector_growth_is_sound(self, n: nat, s: VectorGrowth<V, T>)
        requires
            self.wf(),
            self.grows(n, s),
        ensures
            self.sound(s),
        decreases n,
    {
        if n == 0 {
            self.lemma_begins_sound(s);
        } else {
            let (before, i) = choose|before: VectorGrowth<V, T>, i: int|
                self.grows((n - 1) as nat, before) && #[trigger] self.steps(before, i, s);
            self.law_vector_growth_is_sound((n - 1) as nat, before);
            self.lemma_step_sound(before, i, s);
        }
    }
}

/// The number of samples of a leaf is the number of rows whose tests lead
/// there.
pub open spec fn vector_leaf_samples_right<V, T>(
    nodes: Seq<VectorNodeView<V, T>>,
    columns: Seq<Seq<u8>>,
    rows: Multiset<usize>,
) -> bool {
    forall|leaf: int|
        0 <= leaf < nodes.len() && (#[trigger] nodes[leaf]).fork() is End
            ==> nodes[leaf].num_samples == rows.filter(
            |r: usize|
                crate::tree::shape::leaf_reached(
                    crate::tree::vector_tree::vector_shape(nodes),
                    crate::tree::vector_tree::vector_row_tests(nodes, columns, r as int),
                ) == leaf,
        ).len()
}

/// A grown tree: every descent ends, all tests are on features that exist,
/// nodes know their depth and the rows they have, leaves have a value per
/// output, and the limits are kept.
pub open spec fn vector_grown<V, T>(
    nodes: Seq<VectorNodeView<V, T>>,
    num_outputs: nat,
    columns: Seq<Seq<u8>>,
    rows: Multiset<usize>,
    max_leaves: nat,
    max_depth: nat,
) -> bool {
    let shape = crate::tree::vector_tree::vector_shape(nodes);
    let leaves = crate::tree::shape::leaf_count(shape);
    &&& crate::tree::shape::descends(shape)
    &&& crate::tree::vector_tree::vector_tests_within(nodes, columns.len())
    &&& vector_depths_agree(nodes)
    &&& vector_leaf_samples_right(nodes, columns, rows)
    &&& nodes.len() == 2 * leaves - 1
    &&& leaves <= 1 || leaves <= max_leaves
    &&& crate::tree::vector_tree::vector_deepest(nodes) <= max_depth
    &&& forall|i: int|
        0 <= i < nodes.len() && (#[trigger] nodes[i]).fork() is End ==> nodes[i].values.len()
            == num_outputs
}

proof fn lemma_vector_deepest_bounded<V, T>(nodes: Seq<VectorNodeView<V, T>>, bound: nat)
    requires
        forall|i: int| 0 <= i < nodes.len() ==> (#[trigger] nodes[i]).depth <= bound,
    ensures
        crate::tree::vector_tree::vector_deepest(nodes) <= bound,
    decreases nodes.len(),
{
    if nodes.len() > 0 {
        let fewer = nodes.drop_last();
        assert forall|i: int| 0 <= i < fewer.len() implies (#[trigger] fewer[i]).depth
            <= bound by {
            assert(fewer[i] == nodes[i]);
        }
        lemma_vector_deepest_bounded(fewer, bound);
        assert(nodes.last() == nodes[nodes.len() - 1]);
    }
}

impl<V: Number, T, S: Fn(usize, u8) -> T> VectorProblem<V, S> {
    /// What growth has come to is a grown tree.
    pub proof fn law_vector_growth_gives_grown_tree(self, n: nat, s: VectorGrowth<V, T>)
        requires
            self.wf(),
            self.grows(n, s),
        ensures
            vector_grown(
                s.nodes,
                self.outputs(),
                self.columns,
                self.rows.to_multiset(),
                self.max_leaves,
                self.max_depth,
            ),
    {
        self.law_vector_growth_is_sound(n, s);
        let shape = crate::tree::vector_tree::vector_shape(s.nodes);
        let rows = self.rows.to_multiset();
        let tests = vector_route(s.nodes, self.columns);
        crate::tree::shape::lemma_downward_grounded(shape, 0);
        lemma_vector_deepest_bounded(s.nodes, self.max_depth);
        assert forall|leaf: int|
            0 <= leaf < s.nodes.len() && (#[trigger] s.nodes[leaf]).fork() is End implies s.nodes[leaf].num_samples
            == rows.filter(
            |r: usize|
                crate::tree::shape::leaf_reached(
                    shape,
                    crate::tree::vector_tree::vector_row_tests(s.nodes, self.columns, r as int),
                ) == leaf,
        ).len() by {
            assert(shape[leaf] == s.nodes[leaf].fork());
            crate::tree::routing::lemma_rows_at_leaf(shape, tests, s.rows_at, rows, leaf);
            let a = |r: usize|
                crate::tree::shape::leaf_reached(
                    shape,
                    crate::tree::routing::tests_of(tests, r),
                ) == leaf;
            let b = |r: usize|
                crate::tree::shape::leaf_reached(
                    shape,
                    crate::tree::vector_tree::vector_row_tests(s.nodes, self.columns, r as int),
                ) == leaf;
            assert forall|r: usize| #[trigger] a(r) == b(r) by {
                assert(crate::tree::routing::tests_of(tests, r) =~= crate::tree::vector_tree::vector_row_tests(
                    s.nodes,
                    self.columns,
                    r as int,
                ));
            }
            assert(a =~= b);
        }
    }
}

/// The values of every leaf are, output by output, minus its gradients over its
/// regularized hessians, times the learning rate.
pub open spec fn vector_leaf_values_right<V: Number, T>(
    nodes: Seq<VectorNodeView<V, T>>,
    num_outputs: nat,
    lambda: V,
    learning_rate: V,
) -> bool {
    forall|i: int|
        0 <= i < nodes.len() && (#[trigger] nodes[i]).fork() is End ==> {
            &&& nodes[i].sum_gradients.len() == num_outputs
            &&& nodes[i].sum_hessians.len() == num_outputs
            &&& nodes[i].values == shrunk_weights(
                nodes[i].sum_gradients,
                nodes[i].sum_hessians,
                lambda,
                learning_rate,
            )
        }
}

impl<V: Number, T, S: Fn(usize, u8) -> T> VectorProblem<V, S> {
    /// In what growth has come to, the values of every leaf are, output by
    /// output, minus its gradients over its regularized hessians, times the
    /// learning rate; the root has the sums of all rows.
    pub proof fn law_vector_growth_weighs_leaves(self, n: nat, s: VectorGrowth<V, T>)
        requires
            self.wf(),
            self.grows(n, s),
        ensures
            vector_leaf_values_right(
                s.nodes,
                self.outputs(),
                self.finder.lambda,
                self.learning_rate,
            ),
            s.nodes[0].sum_gradients == row_totals(self.gradients, self.outputs(), self.rows),
            s.nodes[0].sum_hessians == row_totals(self.hessians, self.outputs(), self.rows),
        decreases n,
    {
        if n == 0 {
            lemma_row_totals_len(self.gradients, self.outputs(), self.rows);
            lemma_row_totals_len(self.hessians, self.outputs(), self.rows);
        } else {
            let (before, i) = choose|before: VectorGrowth<V, T>, i: int|
                self.grows((n - 1) as nat, before) && #[trigger] self.steps(before, i, s);
            self.law_vector_growth_weighs_leaves((n - 1) as nat, before);
            self.law_vector_growth_is_sound((n - 1) as nat, before);
            let c = before.open[i];
            assert(self.sound_candidate(before, c));
            if self.splittable(before, c) {
                let (left, right) = choose|left: Seq<usize>, right: Seq<usize>|
                    #[trigger] self.splits_into(
                        before,
                        c,
                        before.open.remove(i),
                        left,
                        right,
                        s,
                    );
                let d = c.split->Some_0;
                let v = choose|v: T|
                    #[trigger] call_ensures(self.split_value, (d.feature_idx, d.bin_threshold), v)
                        && s.nodes == self.nodes_after(before, c, v, left.len(), right.len());
                let size = before.nodes.len() as int;
                assert forall|k: int|
                    0 <= k < s.nodes.len() && (#[trigger] s.nodes[k]).fork() is End implies {
                    &&& s.nodes[k].sum_gradients.len() == self.outputs()
                    &&& s.nodes[k].sum_hessians.len() == self.outputs()
                    &&& s.nodes[k].values == shrunk_weights(
                        s.nodes[k].sum_gradients,
                        s.nodes[k].sum_hessians,
                        self.finder.lambda,
                        self.learning_rate,
                    )
                } by {
                    if k < size {
                        assert(k != c.node);
                        assert(s.nodes[k] == before.nodes[k]);
                    }
                }
            }
        }
    }
}

impl<V: Number, T, S: Fn(usize, u8) -> T> VectorProblem<V, S> {
    /// Every split that waits is one.
    proof fn lemma_waiting_splits_are_valid(self, n: nat, s: VectorGrowth<V, T>)
        requires
            self.wf(),
            self.grows(n, s),
        ensures
            forall|j: int|
                0 <= j < s.open.len() && (#[trigger] s.open[j]).split is Some
                    ==> s.open[j].split->Some_0.valid(),
        decreases n,
    {
        if n > 0 {
            let (before, i) = choose|before: VectorGrowth<V, T>, i: int|
                self.grows((n - 1) as nat, before) && #[trigger] self.steps(before, i, s);
            self.lemma_waiting_splits_are_valid((n - 1) as nat, before);
            let rest = before.open.remove(i);
            assert forall|j: int| 0 <= j < rest.len() && (#[trigger] rest[j]).split is Some implies
                rest[j].split->Some_0.valid() by {
                let o: int = if j < i {
                    j
                } else {
                    j + 1
                };
                assert(rest[j] == before.open[o]);
            }
            if self.splittable(before, before.open[i]) {
                let (left, right) = choose|left: Seq<usize>, right: Seq<usize>|
                    #[trigger] self.splits_into(before, before.open[i], rest, left, right, s);
                if s.leaves < self.max_leaves {
                    let (small, large) = choose|small: VectorCandidate<V>, large: VectorCandidate<V>|
                        #[trigger] self.children_wait(
                            before.nodes.len() as int,
                            before.open[i],
                            left,
                            right,
                            small,
                            large,
                        ) && s.open == rest.push(small).push(large);
                    assert forall|j: int|
                        0 <= j < s.open.len() && (#[trigger] s.open[j]).split is Some implies
                        s.open[j].split->Some_0.valid() by {
                        if j < rest.len() {
                            assert(s.open[j] == rest[j]);
                        }
                    }
                }
            }
        }
    }

    /// In every turn the leaf that is taken has the split with the greatest gain
    /// of all that wait; a leaf without a split is taken only when no leaf that
    /// waits has one. The leaf is split exactly if it has a split and is above
    /// the greatest depth.
    pub proof fn law_vector_turn_takes_the_greatest_gain(
        self,
        n: nat,
        s: VectorGrowth<V, T>,
        i: int,
        t: VectorGrowth<V, T>,
    )
        requires
            self.wf(),
            self.grows(n, s),
            self.steps(s, i, t),
        ensures
            0 <= i < s.open.len(),
            forall|j: int|
                0 <= j < s.open.len() && (#[trigger] s.open[j]).split is Some ==> {
                    &&& s.open[i].split is Some
                    &&& !crate::number::above(
                        s.open[j].split->Some_0.gain,
                        s.open[i].split->Some_0.gain,
                    )
                },
            s.open[i].split is Some && s.nodes[s.open[i].node].depth < self.max_depth ==> {
                &&& t.nodes.len() == s.nodes.len() + 2
                &&& t.nodes[s.open[i].node].test matches Some(test)
                &&& test.0 == s.open[i].split->Some_0.feature_idx
                &&& test.1 == s.open[i].split->Some_0.bin_threshold
                &&& test.3 == s.nodes.len()
                &&& test.4 == s.nodes.len() + 1
            },
            s.open[i].split is None || s.nodes[s.open[i].node].depth >= self.max_depth ==> t.nodes
                == s.nodes,
    {
        self.lemma_waiting_splits_are_valid(n, s);
        self.law_vector_growth_is_sound(n, s);
        let c = s.open[i];
        assert(self.sound_candidate(s, c));
        assert forall|j: int| 0 <= j < s.open.len() && (#[trigger] s.open[j]).split is Some implies {
            &&& s.open[i].split is Some
            &&& !crate::number::above(s.open[j].split->Some_0.gain, s.open[i].split->Some_0.gain)
        } by {
            assert(s.open[j].split->Some_0.valid());
            assert(!crate::number::above(s.open[j].gain(), c.gain()));
        }
        if self.splittable(s, c) {
            let (left, right) = choose|left: Seq<usize>, right: Seq<usize>|
                #[trigger] self.splits_into(s, c, s.open.remove(i), left, right, t);
            let d = c.split->Some_0;
            let v = choose|v: T|
                #[trigger] call_ensures(self.split_value, (d.feature_idx, d.bin_threshold), v)
                    && t.nodes == self.nodes_after(s, c, v, left.len(), right.len());
            assert(t.nodes[c.node].test is Some);
        }
    }
}

/// A leaf that waits to be split; its rows stand at the places from
/// `row_start` up to `row_end`.
struct VectorSplitCandidate<V, T> {
    node_idx: usize,
    row_start: usize,
    row_end: usize,
    histograms: VectorNodeHistograms<V>,
    split_info: Option<VectorSplitInfo<V, T>>,
}

impl<V: Number, T> VectorSplitCandidate<V, T> {
    spec fn model(self, rows: Seq<usize>) -> VectorCandidate<V> {
        VectorCandidate {
            node: self.node_idx as int,
            rows: rows.subrange(self.row_start as int, self.row_end as int),
            hist: self.histograms@,
            split: match self.split_info {
                Some(info) => Some(info.division()),
                None => None,
            },
        }
    }

    /// The parts fit the number of outputs and of rows.
    spec fn fits(self, num_outputs: nat, num_rows: nat) -> bool {
        &&& self.row_start <= self.row_end <= num_rows
        &&& self.histograms.wf()
        &&& self.histograms.outputs() == num_outputs
        &&& self.split_info is Some ==> self.split_info->Some_0.wf()
            && self.split_info->Some_0.outputs() == num_outputs
    }

    /// What the best split gains.
    fn gain(&self) -> (r: V)
        requires
            crate::number::arithmetic::<V>(),
        ensures
            forall|rows: Seq<usize>| r == (#[trigger] self.model(rows)).gain(),
    {
        match &self.split_info {
            Some(info) => info.gain,
            None => lowest_number(),
        }
    }
}

spec fn vector_models<V: Number, T>(
    open: Seq<VectorSplitCandidate<V, T>>,
    rows: Seq<usize>,
) -> Seq<VectorCandidate<V>> {
    Seq::new(open.len(), |i: int| open[i].model(rows))
}

/// The rows of two candidates stand at different places.
spec fn apart<V, T>(a: VectorSplitCandidate<V, T>, b: VectorSplitCandidate<V, T>) -> bool {
    a.row_end <= b.row_start || b.row_end <= a.row_start
}

/// The candidates fit, and their rows stand at different places.
spec fn all_fit<V: Number, T>(
    open: Seq<VectorSplitCandidate<V, T>>,
    num_outputs: nat,
    num_rows: nat,
) -> bool {
    &&& forall|j: int| 0 <= j < open.len() ==> (#[trigger] open[j]).fits(num_outputs, num_rows)
    &&& forall|j: int, k: int|
        0 <= j < open.len() && 0 <= k < open.len() && j != k ==> apart(
            #[trigger] open[j],
            #[trigger] open[k],
        )
}

/// Takes the leaf whose split gains most out of those that wait.
fn take_best<V: Number, T>(open: &mut Vec<VectorSplitCandidate<V, T>>, Ghost(rows): Ghost<
    Seq<usize>,
>) -> (r: (VectorSplitCandidate<V, T>, Ghost<int>))
    requires
        crate::number::arithmetic::<V>(),
        crate::number::ordered::<V>(),
        old(open).len() > 0,
    ensures
        vector_gains_most(vector_models(old(open)@, rows), r.1@),
        r.0 == old(open)@[r.1@],
        final(open)@ == old(open)@.remove(r.1@),
{
    let ghost all = vector_models(open@, rows);
    let mut best: usize = 0;
    let mut j: usize = 1;
    while j < open.len()
        invariant
            crate::number::arithmetic::<V>(),
            crate::number::ordered::<V>(),
            all == vector_models(open@, rows),
            best < j <= open.len(),
            forall|k: int|
                0 <= k < j ==> !crate::number::above(
                    (#[trigger] all[k]).gain(),
                    all[best as int].gain(),
                ),
        decreases open.len() - j,
    {
        let challenger = open[j].gain();
        let leader = open[best].gain();
        assert(all[j as int] == open[j as int].model(rows) && all[best as int]
            == open[best as int].model(rows));
        if challenger > leader {
            assert(crate::number::above(all[j as int].gain(), all[best as int].gain()));
            assert forall|k: int| 0 <= k < j + 1 implies !crate::number::above(
                (#[trigger] all[k]).gain(),
                all[j as int].gain(),
            ) by {
                if k < j && crate::number::above(all[k].gain(), all[j as int].gain()) {
                    assert(crate::number::above(all[k].gain(), all[best as int].gain()));
                }
            }
            best = j;
        }
        j = j + 1;
    }
    let c = open.remove(best);
    (c, Ghost(best as int))
}

/// Adds up the entries of rows in a buffer with `k` entries per row.
fn sum_rows<V: Number>(buffer: &[V], k: usize, rows: &[usize], num_rows: usize) -> (r: Vec<V>)
    requires
        crate::number::arithmetic::<V>(),
        buffer.len() == num_rows * k,
        forall|i: int| 0 <= i < rows.len() ==> (#[trigger] rows[i]) < num_rows,
    ensures
        r@ == row_totals(buffer@, k as nat, rows@),
        r.len() == k,
{
    let mut sums: Vec<V> = zero_list(k);
    let mut n: usize = 0;
    assert(rows@.take(0) =~= Seq::<usize>::empty());
    while n < rows.len()
        invariant
            crate::number::arithmetic::<V>(),
            buffer.len() == num_rows * k,
            forall|i: int| 0 <= i < rows.len() ==> (#[trigger] rows[i]) < num_rows,
            n <= rows.len(),
            sums.len() == k,
            sums@ == row_totals(buffer@, k as nat, rows@.take(n as int)),
        decreases rows.len() - n,
    {
        let row: usize = rows[n];
        proof {
            assert(rows@.take(n + 1).drop_last() =~= rows@.take(n as int));
            assert(row * k + k <= num_rows * k && 0 <= row * k) by (nonlinear_arith)
                requires
                    row < num_rows,
                    0 <= k,
            ;
        }
        let offset: usize = row * k;
        let ghost before = sums@;
        let mut j: usize = 0;
        while j < k
            invariant
                crate::number::arithmetic::<V>(),
                j <= k,
                offset == row * k,
                offset + k <= buffer.len(),
                sums.len() == k,
                before.len() == k,
                forall|m: int|
                    0 <= m < k ==> #[trigger] sums[m] == (if m < j {
                        crate::number::plus(before[m], buffer[offset + m])
                    } else {
                        before[m]
                    }),
            decreases k - j,
        {
            let x: V = sums[j];
            sums.set(j, x + buffer[offset + j]);
            j = j + 1;
        }
        assert(sums@ =~= crate::tree::vector_histogram::added(
            before,
            crate::tree::vector_histogram::row_part(buffer@, k as nat, row as int),
        ));
        n = n + 1;
    }
    assert(rows@.take(n as int) =~= rows@);
    sums
}

/// The counts of histograms of at most so many rows fit their type.
proof fn lemma_counts_fit<V: Number>(
    finder: &VectorSplitFinder<V>,
    hist: Seq<Seq<Bin<V>>>,
    columns: Seq<Seq<u8>>,
    rows: Seq<usize>,
)
    requires
        2 * finder.num_outputs <= usize::MAX,
        2 * finder.min_samples_leaf <= u32::MAX,
        all_vector_histograms(hist, finder.num_outputs as nat),
        crate::tree::vector_histogram::all_count_rows(hist, columns, rows),
        rows.len() <= u32::MAX,
    ensures
        forall|f: int| 0 <= f < hist.len() ==> finder.fits(#[trigger] hist[f]),
{
    assert forall|f: int| 0 <= f < hist.len() implies finder.fits(#[trigger] hist[f]) by {
        let plain = crate::tree::vector_histogram::counts_only(hist[f]);
        assert(crate::tree::histogram::counts_rows(plain, columns[f], rows));
        crate::tree::histogram::lemma_count_below(plain, columns[f], rows, NUM_BINS as int);
        crate::tree::histogram::lemma_rows_below_ends(columns[f], rows, NUM_BINS as int);
    }
}

/// Dividing the rows of one candidate leaves those of the others alone.
proof fn lemma_others_unchanged<V: Number, T>(
    open: Seq<VectorSplitCandidate<V, T>>,
    num_outputs: nat,
    before: Seq<usize>,
    after: Seq<usize>,
    start: int,
    end: int,
)
    requires
        all_fit(open, num_outputs, before.len()),
        0 <= start <= end <= before.len(),
        after.len() == before.len(),
        forall|i: int|
            (0 <= i < start || end <= i < before.len()) ==> #[trigger] after[i] == before[i],
        forall|j: int|
            0 <= j < open.len() ==> (#[trigger] open[j]).row_end <= start || end
                <= open[j].row_start,
    ensures
        vector_models(open, after) == vector_models(open, before),
{
    assert forall|j: int| 0 <= j < open.len() implies (#[trigger] vector_models(open, after)[j])
        == vector_models(open, before)[j] by {
        let c = open[j];
        assert(c.fits(num_outputs, before.len()));
        assert(after.subrange(c.row_start as int, c.row_end as int) =~= before.subrange(
            c.row_start as int,
            c.row_end as int,
        ));
    }
    assert(vector_models(open, after) =~= vector_models(open, before));
}

impl<V: Number> VectorTreeGrower<V> {
    /// The usual settings.
    pub fn new(num_outputs: usize) -> (r: Self)
        requires
            crate::number::arithmetic::<V>(),
        ensures
            r == (VectorTreeGrower {
                num_outputs,
                max_depth: 6,
                max_leaves: 31,
                lambda: crate::number::small::<V>(1),
                min_samples_leaf: 1,
                min_hessian_leaf: crate::number::small::<V>(1),
                min_gain: crate::number::small::<V>(0),
                learning_rate: crate::number::over(
                    crate::number::small::<V>(1),
                    crate::number::small::<V>(10),
                ),
            }),
    {
        let one: V = V::from(1u8);
        let ten: V = V::from(10u8);
        VectorTreeGrower {
            num_outputs,
            max_depth: 6,
            max_leaves: 31,
            lambda: one,
            min_samples_leaf: 1,
            min_hessian_leaf: one,
            min_gain: V::from(0u8),
            learning_rate: one / ten,
        }
    }

    /// Sets the greatest depth of a node.
    pub fn with_max_depth(self, max_depth: usize) -> (r: Self)
        ensures
            r == (VectorTreeGrower { max_depth, ..self }),
    {
        VectorTreeGrower { max_depth, ..self }
    }

    /// Sets the greatest number of leaves.
    pub fn with_max_leaves(self, max_leaves: usize) -> (r: Self)
        ensures
            r == (VectorTreeGrower { max_leaves, ..self }),
    {
        VectorTreeGrower { max_leaves, ..self }
    }

    /// Sets the L2 regularization.
    pub fn with_lambda(self, lambda: V) -> (r: Self)
        ensures
            r == (VectorTreeGrower { lambda, ..self }),
    {
        VectorTreeGrower { lambda, ..self }
    }

    /// Sets the least number of rows of a leaf.
    pub fn with_min_samples_leaf(self, min_samples: usize) -> (r: Self)
        ensures
            r == (VectorTreeGrower { min_samples_leaf: min_samples, ..self }),
    {
        VectorTreeGrower { min_samples_leaf: min_samples, ..self }
    }

    /// Sets the least sum of hessians of a leaf.
    pub fn with_min_hessian_leaf(self, min_hessian: V) -> (r: Self)
        ensures
            r == (VectorTreeGrower { min_hessian_leaf: min_hessian, ..self }),
    {
        VectorTreeGrower { min_hessian_leaf: min_hessian, ..self }
    }

    /// Sets the least gain of a split.
    pub fn with_min_gain(self, min_gain: V) -> (r: Self)
        ensures
            r == (VectorTreeGrower { min_gain, ..self }),
    {
        VectorTreeGrower { min_gain, ..self }
    }

    /// Sets the factor by which the values of leaves are shrunk.
    pub fn with_learning_rate(self, learning_rate: V) -> (r: Self)
        ensures
            r == (VectorTreeGrower { learning_rate, ..self }),
    {
        VectorTreeGrower { learning_rate, ..self }
    }

    /// The number of outputs.
    pub fn num_outputs(&self) -> (r: usize)
        ensures
            r == self.num_outputs,
    {
        self.num_outputs
    }

    /// The finder with the settings of this grower.
    pub open spec fn finder(&self) -> VectorSplitFinder<V> {
        VectorSplitFinder {
            num_outputs: self.num_outputs,
            lambda: self.lambda,
            min_samples_leaf: self.min_samples_leaf,
            min_hessian_leaf: self.min_hessian_leaf,
            min_gain: self.min_gain,
        }
    }

    /// What this grower makes of the given data.
    pub open spec fn problem<S>(
        &self,
        dataset: &BinnedDataset,
        gradients: Seq<V>,
        hessians: Seq<V>,
        rows: Seq<usize>,
        split_value: S,
    ) -> VectorProblem<V, S> {
        VectorProblem {
            finder: self.finder(),
            max_depth: self.max_depth as nat,
            max_leaves: self.max_leaves as nat,
            learning_rate: self.learning_rate,
            num_rows: dataset.rows(),
            columns: dataset@,
            gradients,
            hessians,
            rows,
            split_value,
        }
    }

    /// The split finder with the settings of this grower.
    fn create_split_finder(&self) -> (r: VectorSplitFinder<V>)
        requires
            crate::number::arithmetic::<V>(),
        ensures
            r == self.finder(),
    {
        VectorSplitFinder::new(self.num_outputs).with_lambda(self.lambda).with_min_samples_leaf(
            self.min_samples_leaf,
        ).with_min_hessian_leaf(self.min_hessian_leaf).with_min_gain(self.min_gain)
    }

    /// The values of a leaf with the given sums, shrunk.
    fn leaf_values(&self, gradients: &[V], hessians: &[V]) -> (r: Vec<V>)
        requires
            crate::number::arithmetic::<V>(),
            gradients.len() == hessians.len(),
        ensures
            r@ == shrunk_weights(gradients@, hessians@, self.lambda, self.learning_rate),
    {
        let mut list: Vec<V> = Vec::new();
        let mut k: usize = 0;
        let ghost goal = shrunk_weights(gradients@, hessians@, self.lambda, self.learning_rate);
        while k < gradients.len()
            invariant
                crate::number::arithmetic::<V>(),
                gradients.len() == hessians.len(),
                k <= gradients.len(),
                goal == shrunk_weights(gradients@, hessians@, self.lambda, self.learning_rate),
                list@ == goal.take(k as int),
            decreases gradients.len() - k,
        {
            let weight = leaf_weight(gradients[k], hessians[k], self.lambda);
            list.push(weight * self.learning_rate);
            k = k + 1;
            assert(list@ =~= goal.take(k as int));
        }
        assert(list@ =~= goal);
        list
    }

    /// A leaf with the given sums.
    fn leaf_node<T: Copy>(
        &self,
        gradients: Vec<V>,
        hessians: Vec<V>,
        depth: usize,
        num_samples: usize,
    ) -> (r: VectorNode<V, T>)
        requires
            crate::number::arithmetic::<V>(),
            gradients.len() == hessians.len(),
        ensures
            r@ == (VectorNodeView::<V, T> {
                test: None,
                values: shrunk_weights(
                    gradients@,
                    hessians@,
                    self.lambda,
                    self.learning_rate,
                ),
                depth: depth as nat,
                num_samples: num_samples as nat,
                sum_gradients: gradients@,
                sum_hessians: hessians@,
            }),
    {
        let values = self.leaf_values(gradients.as_slice(), hessians.as_slice());
        VectorNode::leaf(values, depth, num_samples, gradients, hessians)
    }

    /// Grows a tree from all rows, best split first.
    pub fn grow<T: Copy + From<u8>, S: Fn(usize, u8) -> T>(
        &self,
        dataset: &BinnedDataset,
        gradients: &[V],
        hessians: &[V],
        split_value: &S,
    ) -> (r: Result<VectorTree<V, T>>)
        requires
            crate::number::arithmetic::<V>(),
            crate::number::ordered::<V>(),
            dataset.rows() <= u32::MAX,
            2 * self.num_outputs <= usize::MAX,
            2 * self.min_samples_leaf <= u32::MAX,
            gradients.len() == dataset.rows() * self.num_outputs,
            hessians.len() == dataset.rows() * self.num_outputs,
            forall|f: usize, b: u8| #[trigger] call_requires(*split_value, (f, b)),
        ensures
            r is Ok,
            self.grown_from(
                dataset,
                gradients@,
                hessians@,
                crate::tree::grow::all_rows(dataset.rows()),
                *split_value,
                &r->Ok_0,
            ),
    {
        let num_rows: usize = dataset.num_rows();
        let mut rows: Vec<usize> = Vec::new();
        let mut filled: usize = 0;
        while filled < num_rows
            invariant
                filled <= num_rows,
                rows@ == crate::tree::grow::all_rows(filled as nat),
            decreases num_rows - filled,
        {
            rows.push(filled);
            filled = filled + 1;
            assert(rows@ =~= crate::tree::grow::all_rows(filled as nat));
        }
        self.grow_with_indices(dataset, gradients, hessians, rows.as_slice(), split_value)
    }

    /// `tree` is a tree that growth from the given rows may end with.
    pub open spec fn grown_from<T, S: Fn(usize, u8) -> T>(
        &self,
        dataset: &BinnedDataset,
        gradients: Seq<V>,
        hessians: Seq<V>,
        rows: Seq<usize>,
        split_value: S,
        tree: &VectorTree<V, T>,
    ) -> bool {
        let p = self.problem(dataset, gradients, hessians, rows, split_value);
        &&& tree.outputs() == self.num_outputs
        &&& vector_grown(
            tree@,
            self.num_outputs as nat,
            dataset@,
            rows.to_multiset(),
            self.max_leaves as nat,
            self.max_depth as nat,
        )
        &&& vector_leaf_values_right(
            tree@,
            self.num_outputs as nat,
            self.lambda,
            self.learning_rate,
        )
        &&& tree@[0].sum_gradients == row_totals(gradients, self.num_outputs as nat, rows)
        &&& tree@[0].sum_hessians == row_totals(hessians, self.num_outputs as nat, rows)
        &&& exists|n: nat, s: VectorGrowth<V, T>|
            #[trigger] p.grows(n, s) && p.ends(s) && tree@ == s.nodes
    }

    /// Grows a tree from the given rows, best split first. `split_value` gives
    /// the value at which a split of a feature after a bin divides.
    #[verifier::rlimit(60)]
    #[verifier::spinoff_prover]
    pub fn grow_with_indices<T: Copy + From<u8>, S: Fn(usize, u8) -> T>(
        &self,
        dataset: &BinnedDataset,
        gradients: &[V],
        hessians: &[V],
        row_indices: &[usize],
        split_value: &S,
    ) -> (r: Result<VectorTree<V, T>>)
        requires
            crate::number::arithmetic::<V>(),
            crate::number::ordered::<V>(),
            row_indices.len() <= u32::MAX,
            2 * self.num_outputs <= usize::MAX,
            2 * self.min_samples_leaf <= u32::MAX,
            gradients.len() == dataset.rows() * self.num_outputs,
            hessians.len() == dataset.rows() * self.num_outputs,
            forall|i: int|
                0 <= i < row_indices.len() ==> (#[trigger] row_indices[i]) < dataset.rows(),
            forall|f: usize, b: u8| #[trigger] call_requires(*split_value, (f, b)),
        ensures
            r is Ok,
            self.grown_from(
                dataset,
                gradients@,
                hessians@,
                row_indices@,
                *split_value,
                &r->Ok_0,
            ),
    {
        let num_rows: usize = row_indices.len();
        let num_outputs: usize = self.num_outputs;
        let data_rows: usize = dataset.num_rows();
        let num_features: usize = dataset.num_features();
        let finder = self.create_split_finder();
        let ghost p = self.problem(
            dataset,
            gradients@,
            hessians@,
            row_indices@,
            *split_value,
        );
        let total_gradients = sum_rows(gradients, num_outputs, row_indices, data_rows);
        let total_hessians = sum_rows(hessians, num_outputs, row_indices, data_rows);
        let root_values = self.leaf_values(total_gradients.as_slice(), total_hessians.as_slice());
        let mut tree: VectorTree<V, T> = VectorTree::new(
            root_values,
            num_rows,
            total_gradients,
            total_hessians,
        );
        let mut partitioner = RowPartitioner::new(copy_list(row_indices));
        let root_rows = partitioner.get_rows(0, num_rows);
        assert(root_rows@ =~= row_indices@);
        let histograms = VectorNodeHistograms::build(
            dataset,
            num_outputs,
            gradients,
            hessians,
            root_rows,
        );
        proof {
            p.lemma_histograms_count(histograms@, row_indices@);
            lemma_counts_fit(&finder, histograms@, dataset@, row_indices@);
        }
        let root_split = finder.find_best_split_all_features::<T>(&histograms);
        let mut open: Vec<VectorSplitCandidate<V, T>> = Vec::new();
        let root_info = if root_split.is_valid() {
            Some(root_split)
        } else {
            None
        };
        open.push(
            VectorSplitCandidate {
                node_idx: 0,
                row_start: 0,
                row_end: num_rows,
                histograms,
                split_info: root_info,
            },
        );
        let mut num_leaves: usize = 1;
        let ghost mut turns: nat = 0;
        let ghost mut s: VectorGrowth<V, T> = VectorGrowth {
            nodes: tree@,
            rows_at: seq![row_indices@.to_multiset()],
            open: vector_models(open@, partitioner@),
            leaves: 1,
        };
        proof {
            assert(s.open[0].rows =~= row_indices@);
            assert(p.waits(s.open[0], 0, row_indices@));
            assert(p.begins(s));
            assert(p.grows(turns, s));
        }
        while open.len() > 0 && num_leaves < self.max_leaves
            invariant
                crate::number::arithmetic::<V>(),
                crate::number::ordered::<V>(),
                num_rows == row_indices.len(),
                num_rows <= u32::MAX,
                num_outputs == self.num_outputs,
                2 * num_outputs <= usize::MAX,
                2 * self.min_samples_leaf <= u32::MAX,
                gradients.len() == dataset.rows() * num_outputs,
                hessians.len() == dataset.rows() * num_outputs,
                dataset.rectangular(),
                num_features == dataset@.len(),
                forall|f: usize, b: u8| #[trigger] call_requires(*split_value, (f, b)),
                finder == self.finder(),
                p == self.problem(
                    dataset,
                    gradients@,
                    hessians@,
                    row_indices@,
                    *split_value,
                ),
                p.wf(),
                p.grows(turns, s),
                s.nodes == tree@,
                tree.outputs() == num_outputs,
                partitioner@.len() == num_rows,
                all_fit(open@, num_outputs as nat, num_rows as nat),
                s.open == vector_models(open@, partitioner@),
                s.leaves == num_leaves,
            decreases 2 * (self.max_leaves - num_leaves) + open.len(),
        {
            let ghost before = s;
            let ghost waiting = open@;
            let ghost had = partitioner@;
            proof {
                p.law_vector_growth_is_sound(turns, s);
            }
            let (c, Ghost(i)) = take_best(&mut open, Ghost(partitioner@));
            let ghost m = c.model(had);
            proof {
                assert(waiting[i] == c);
                assert(s.open[i] == m);
                assert(p.sound_candidate(s, s.open[i]));
                assert(vector_models(open@, had) =~= s.open.remove(i));
                assert forall|j: int| 0 <= j < open.len() implies (#[trigger] open@[j]).fits(
                    num_outputs as nat,
                    num_rows as nat,
                ) && apart(open@[j], c) by {
                    let o: int = if j < i {
                        j
                    } else {
                        j + 1
                    };
                    assert(open@[j] == waiting[o]);
                }
                assert forall|j: int, k: int|
                    0 <= j < open.len() && 0 <= k < open.len() && j != k implies apart(
                    #[trigger] open@[j],
                    #[trigger] open@[k],
                ) by {
                    let oj: int = if j < i {
                        j
                    } else {
                        j + 1
                    };
                    let ok: int = if k < i {
                        k
                    } else {
                        k + 1
                    };
                    assert(open@[j] == waiting[oj] && open@[k] == waiting[ok]);
                }
                assert(c.fits(num_outputs as nat, num_rows as nat));
            }
            let depth: usize = tree.get_node(c.node_idx).depth;
            if depth >= self.max_depth {
                proof {
                    s = VectorGrowth { open: vector_models(open@, had), ..before };
                    assert(p.steps(before, i, s));
                    assert(p.grows((turns + 1) as nat, s));
                    turns = turns + 1;
                }
            } else if let Some(split_info) = c.split_info {
                let ghost d = split_info.division();
                let feature_idx: usize = split_info.feature_idx;
                let threshold: u8 = split_info.bin_threshold;
                proof {
                    assert(m.split == Some(d));
                    assert forall|k: int| c.row_start <= k < c.row_end implies (
                    #[trigger] partitioner@[k]) < dataset.rows() by {
                        assert(m.rows[k - c.row_start] == partitioner@[k]);
                    }
                }
                let mid: usize = partitioner.partition_in_place(
                    dataset,
                    c.row_start,
                    c.row_end,
                    feature_idx,
                    threshold,
                );
                let ghost column = dataset@[feature_idx as int];
                let ghost left = partitioner@.subrange(c.row_start as int, mid as int);
                let ghost right = partitioner@.subrange(mid as int, c.row_end as int);
                proof {
                    crate::tree::partition::law_division_is_complete(
                        column,
                        m.rows,
                        threshold,
                        left,
                        right,
                    );
                    lemma_others_unchanged(
                        open@,
                        num_outputs as nat,
                        had,
                        partitioner@,
                        c.row_start as int,
                        c.row_end as int,
                    );
                }
                let left_count: usize = mid - c.row_start;
                let right_count: usize = c.row_end - mid;
                let child_depth: usize = depth + 1;
                let left_node = self.leaf_node::<T>(
                    split_info.left_gradients(),
                    split_info.left_hessians(),
                    child_depth,
                    left_count,
                );
                let right_node = self.leaf_node::<T>(
                    split_info.right_gradients(),
                    split_info.right_hessians(),
                    child_depth,
                    right_count,
                );
                let left_idx: usize = tree.add_node(left_node);
                let right_idx: usize = tree.add_node(right_node);
                let value: T = split_value(feature_idx, threshold);
                let node = tree.get_node_mut(c.node_idx);
                node.node_type =
                VectorNodeType::Internal {
                    feature_idx,
                    bin_threshold: threshold,
                    split_value: value,
                    left_child: left_idx,
                    right_child: right_idx,
                };
                num_leaves = num_leaves + 1;
                let ghost rest = vector_models(open@, partitioner@);
                proof {
                    assert(tree@ =~= p.nodes_after(
                        before,
                        m,
                        value,
                        left.len(),
                        right.len(),
                    ));
                    s =
                    VectorGrowth {
                        nodes: tree@,
                        rows_at: before.rows_at.push(left.to_multiset()).push(
                            right.to_multiset(),
                        ),
                        open: rest,
                        leaves: num_leaves as nat,
                    };
                }
                if num_leaves < self.max_leaves {
                    let left_is_small: bool = left_count <= right_count;
                    let (small_start, small_end, small_idx, large_start, large_end, large_idx): (
                        usize,
                        usize,
                        usize,
                        usize,
                        usize,
                        usize,
                    ) = if left_is_small {
                        (c.row_start, mid, left_idx, mid, c.row_end, right_idx)
                    } else {
                        (mid, c.row_end, right_idx, c.row_start, mid, left_idx)
                    };
                    let ghost small_rows = partitioner@.subrange(
                        small_start as int,
                        small_end as int,
                    );
                    let ghost large_rows = partitioner@.subrange(
                        large_start as int,
                        large_end as int,
                    );
                    proof {
                        assert forall|k: int| 0 <= k < small_rows.len() implies (
                        #[trigger] small_rows[k]) < dataset.rows() by {
                            assert(m.rows.contains(small_rows[k])) by {
                                if left_is_small {
                                    assert(small_rows[k] == left[k]);
                                } else {
                                    assert(small_rows[k] == right[k]);
                                }
                            }
                            let o = choose|o: int|
                                0 <= o < m.rows.len() && m.rows[o] == small_rows[k];
                            assert(m.rows[o] < p.num_rows);
                        }
                    }
                    let small_slice = partitioner.get_rows(small_start, small_end);
                    let small_histograms = VectorNodeHistograms::build(
                        dataset,
                        num_outputs,
                        gradients,
                        hessians,
                        small_slice,
                    );
                    proof {
                        lemma_child_below_parent(
                            m.hist,
                            small_histograms@,
                            dataset@,
                            m.rows,
                            column,
                            threshold,
                            left,
                            right,
                            left_is_small,
                        );
                    }
                    let large_histograms = VectorNodeHistograms::from_subtraction(
                        &c.histograms,
                        &small_histograms,
                    );
                    proof {
                        p.lemma_histograms_count(small_histograms@, small_rows);
                        p.lemma_difference_counts(
                            large_histograms@,
                            m.hist,
                            small_histograms@,
                            m.rows,
                            column,
                            threshold,
                            left,
                            right,
                            left_is_small,
                        );
                        lemma_counts_fit(&finder, small_histograms@, dataset@, small_rows);
                        lemma_counts_fit(&finder, large_histograms@, dataset@, large_rows);
                    }
                    let small_split = finder.find_best_split_all_features::<T>(&small_histograms);
                    let large_split = finder.find_best_split_all_features::<T>(&large_histograms);
                    let small_info = if small_split.is_valid() {
                        Some(small_split)
                    } else {
                        None
                    };
                    let large_info = if large_split.is_valid() {
                        Some(large_split)
                    } else {
                        None
                    };
                    let small = VectorSplitCandidate {
                        node_idx: small_idx,
                        row_start: small_start,
                        row_end: small_end,
                        histograms: small_histograms,
                        split_info: small_info,
                    };
                    let large = VectorSplitCandidate {
                        node_idx: large_idx,
                        row_start: large_start,
                        row_end: large_end,
                        histograms: large_histograms,
                        split_info: large_info,
                    };
                    let ghost small_model = small.model(partitioner@);
                    let ghost large_model = large.model(partitioner@);
                    proof {
                        assert(p.children_wait(
                            before.nodes.len() as int,
                            m,
                            left,
                            right,
                            small_model,
                            large_model,
                        ));
                        lemma_two_more(open@, num_outputs as nat, num_rows as nat, c, small, large);
                    }
                    open.push(small);
                    open.push(large);
                    proof {
                        assert(vector_models(open@, partitioner@) =~= rest.push(
                            small_model,
                        ).push(large_model));
                        s = VectorGrowth { open: vector_models(open@, partitioner@), ..s };
                        assert(p.children_wait(
                            before.nodes.len() as int,
                            m,
                            left,
                            right,
                            small_model,
                            large_model,
                        ) && s.open == rest.push(small_model).push(large_model));
                    }
                }
                proof {
                    assert(call_ensures(p.split_value, (d.feature_idx, d.bin_threshold), value));
                    assert(s.nodes == p.nodes_after(before, m, value, left.len(), right.len()));
                    assert(p.splits_into(before, m, rest, left, right, s));
                    assert(p.steps(before, i, s));
                    assert(p.grows((turns + 1) as nat, s));
                    turns = turns + 1;
                }
            } else {
                proof {
                    s = VectorGrowth { open: vector_models(open@, had), ..before };
                    assert(p.steps(before, i, s));
                    assert(p.grows((turns + 1) as nat, s));
                    turns = turns + 1;
                }
            }
        }
        proof {
            p.law_vector_growth_gives_grown_tree(turns, s);
            p.law_vector_growth_weighs_leaves(turns, s);
        }
        Ok(tree)
    }
}

/// A child counts no more rows in a bin than its parent.
proof fn lemma_child_below_parent<V: Number>(
    parent: Seq<Seq<Bin<V>>>,
    small: Seq<Seq<Bin<V>>>,
    columns: Seq<Seq<u8>>,
    rows: Seq<usize>,
    tested: Seq<u8>,
    threshold: u8,
    left: Seq<usize>,
    right: Seq<usize>,
    left_is_small: bool,
)
    requires
        crate::tree::partition::divides(tested, rows, threshold, left, right),
        crate::tree::vector_histogram::all_count_rows(parent, columns, rows),
        crate::tree::vector_histogram::all_count_rows(
            small,
            columns,
            if left_is_small {
                left
            } else {
                right
            },
        ),
    ensures
        forall|f: int, b: int|
            0 <= f < parent.len() && 0 <= b < NUM_BINS ==> (#[trigger] small[f][b]).count
                <= parent[f][b].count,
{
    let few = if left_is_small {
        left
    } else {
        right
    };
    assert forall|f: int, b: int| 0 <= f < parent.len() && 0 <= b < NUM_BINS implies (
    #[trigger] small[f][b]).count <= parent[f][b].count by {
        let plain_p = crate::tree::vector_histogram::counts_only(parent[f]);
        let plain_s = crate::tree::vector_histogram::counts_only(small[f]);
        assert(crate::tree::histogram::counts_rows(plain_p, columns[f], rows));
        assert(crate::tree::histogram::counts_rows(plain_s, columns[f], few));
        crate::tree::histogram::lemma_bin_count_divided(
            columns[f],
            rows,
            tested,
            threshold,
            left,
            right,
            b,
        );
        assert(plain_p[b].count == crate::tree::histogram::bin_count(columns[f], rows, b));
        assert(plain_s[b].count == crate::tree::histogram::bin_count(columns[f], few, b));
    }
}

/// Two candidates that share the places of one that has gone fit in.
proof fn lemma_two_more<V: Number, T>(
    open: Seq<VectorSplitCandidate<V, T>>,
    num_outputs: nat,
    num_rows: nat,
    gone: VectorSplitCandidate<V, T>,
    a: VectorSplitCandidate<V, T>,
    b: VectorSplitCandidate<V, T>,
)
    requires
        all_fit(open, num_outputs, num_rows),
        forall|j: int| 0 <= j < open.len() ==> apart(#[trigger] open[j], gone),
        a.fits(num_outputs, num_rows),
        b.fits(num_outputs, num_rows),
        apart(a, b),
        gone.row_start <= a.row_start <= a.row_end <= gone.row_end,
        gone.row_start <= b.row_start <= b.row_end <= gone.row_end,
    ensures
        all_fit(open.push(a).push(b), num_outputs, num_rows),
{
    let all = open.push(a).push(b);
    assert forall|j: int, k: int| 0 <= j < all.len() && 0 <= k < all.len() && j != k implies apart(
        #[trigger] all[j],
        #[trigger] all[k],
    ) by {
        if j < open.len() {
            assert(all[j] == open[j]);
            assert(apart(open[j], gone));
        }
        if k < open.len() {
            assert(all[k] == open[k]);
            assert(apart(open[k], gone));
        }
    }
}

impl<V: Number, T, S: Fn(usize, u8) -> T> VectorProblem<V, S> {
    /// Leaf `k` has been looked at and stays a leaf: it is too deep, or no split of
    /// its rows is worth making.
    pub open spec fn refused(self, s: VectorGrowth<V, T>, k: int) -> bool {
        s.nodes[k].depth >= self.max_depth || exists|c: VectorCandidate<V>|
            {
                &&& #[trigger] self.waits(c, k, c.rows)
                &&& c.rows.to_multiset() == s.rows_at[k]
                &&& crate::tree::vector_histogram::all_count_rows(c.hist, self.columns, c.rows)
                &&& c.split is None
            }
    }

    /// Every leaf that waits has the best split of its rows.
    proof fn lemma_waiting_splits_are_best(self, n: nat, s: VectorGrowth<V, T>)
        requires
            self.wf(),
            self.grows(n, s),
        ensures
            forall|j: int|
                0 <= j < s.open.len() ==> (#[trigger] s.open[j]).split == self.best(s.open[j].hist),
        decreases n,
    {
        if n > 0 {
            let (before, i) = choose|before: VectorGrowth<V, T>, i: int|
                self.grows((n - 1) as nat, before) && #[trigger] self.steps(before, i, s);
            self.lemma_waiting_splits_are_best((n - 1) as nat, before);
            let rest = before.open.remove(i);
            assert forall|j: int| 0 <= j < rest.len() implies (#[trigger] rest[j]).split
                == self.best(rest[j].hist) by {
                let o: int = if j < i {
                    j
                } else {
                    j + 1
                };
                assert(rest[j] == before.open[o]);
            }
            if self.splittable(before, before.open[i]) {
                let (left, right) = choose|left: Seq<usize>, right: Seq<usize>|
                    #[trigger] self.splits_into(before, before.open[i], rest, left, right, s);
                if s.leaves < self.max_leaves {
                    let (small, large) = choose|
                        small: VectorCandidate<V>,
                        large: VectorCandidate<V>,
                    |
                        #[trigger] self.children_wait(
                            before.nodes.len() as int,
                            before.open[i],
                            left,
                            right,
                            small,
                            large,
                        ) && s.open == rest.push(small).push(large);
                    let m = rest.len() as int;
                    assert forall|j: int| 0 <= j < s.open.len() implies (#[trigger] s.open[j]).split
                        == self.best(s.open[j].hist) by {
                        if j < m {
                            assert(s.open[j] == rest[j]);
                        }
                    }
                }
            }
        }
    }

    /// Growth leaves no leaf out: while there may be more leaves, each leaf waits,
    /// or has been looked at and stays a leaf.
    pub proof fn law_vector_growth_leaves_none_out(self, n: nat, s: VectorGrowth<V, T>, k: int)
        requires
            self.wf(),
            self.grows(n, s),
            s.leaves < self.max_leaves,
            0 <= k < s.nodes.len(),
            s.nodes[k].fork() is End,
        ensures
            (exists|j: int| 0 <= j < s.open.len() && (#[trigger] s.open[j]).node == k)
                || self.refused(s, k),
        decreases n,
    {
        if n == 0 {
            assert(s.open[0].node == 0);
        } else {
            let (before, i) = choose|before: VectorGrowth<V, T>, i: int|
                self.grows((n - 1) as nat, before) && #[trigger] self.steps(before, i, s);
            self.law_vector_growth_is_sound((n - 1) as nat, before);
            self.lemma_waiting_splits_are_best((n - 1) as nat, before);
            let c = before.open[i];
            let rest = before.open.remove(i);
            assert(self.sound_candidate(before, c));
            let size = before.nodes.len() as int;
            if self.splittable(before, c) {
                let (left, right) = choose|left: Seq<usize>, right: Seq<usize>|
                    #[trigger] self.splits_into(before, c, rest, left, right, s);
                self.lemma_split_tree_sound(before, c, rest, left, right, s);
                let (small, large) = choose|small: VectorCandidate<V>, large: VectorCandidate<V>|
                    #[trigger] self.children_wait(size, c, left, right, small, large) && s.open
                        == rest.push(small).push(large);
                let m = rest.len() as int;
                assert(s.open[m] == small && s.open[m + 1] == large);
                let d = c.split->Some_0;
                let v = choose|v: T|
                    #[trigger] call_ensures(self.split_value, (d.feature_idx, d.bin_threshold), v)
                        && s.nodes == self.nodes_after(before, c, v, left.len(), right.len());
                assert(s.nodes[c.node].fork() is Branch);
            }
            if k < size && k != c.node {
                assert(s.nodes[k] == before.nodes[k]);
                assert(s.rows_at[k] == before.rows_at[k]);
                self.law_vector_growth_leaves_none_out((n - 1) as nat, before, k);
                if exists|j: int|
                    0 <= j < before.open.len() && (#[trigger] before.open[j]).node == k {
                    let j = choose|j: int|
                        0 <= j < before.open.len() && (#[trigger] before.open[j]).node == k;
                    let o: int = if j < i {
                        j
                    } else {
                        j - 1
                    };
                    assert(rest[o] == before.open[j]);
                    assert(s.open[o] == before.open[j]);
                } else {
                    assert(self.refused(before, k));
                }
            } else if k == c.node {
                assert(!self.splittable(before, c));
                if before.nodes[k].depth < self.max_depth {
                    assert(self.waits(c, k, c.rows));
                }
            }
        }
    }
}

impl<V: Number, T, S: Fn(usize, u8) -> T> VectorProblem<V, S> {
    /// The gradients of one output, row by row.
    pub open spec fn output_gradients(self, o: int) -> Seq<V> {
        crate::tree::vector_histogram::output_of(self.gradients, self.outputs(), o)
    }

    /// The hessians of one output, row by row.
    pub open spec fn output_hessians(self, o: int) -> Seq<V> {
        crate::tree::vector_histogram::output_of(self.hessians, self.outputs(), o)
    }

    /// The sums are, output by output, those of `rows`.
    pub open spec fn weighed_by(
        self,
        worth: spec_fn(V) -> real,
        gradients: Seq<V>,
        hessians: Seq<V>,
        rows: Seq<usize>,
    ) -> bool {
        forall|o: int|
            0 <= o < self.outputs() ==> worth(#[trigger] gradients[o]) == worth(
                crate::tree::histogram::row_sum(self.output_gradients(o), rows),
            ) && worth(hessians[o]) == worth(
                crate::tree::histogram::row_sum(self.output_hessians(o), rows),
            )
    }

    /// The sums of node `k` are those of the rows at the node.
    pub open spec fn sums_of_rows(
        self,
        worth: spec_fn(V) -> real,
        s: VectorGrowth<V, T>,
        k: int,
    ) -> bool {
        exists|rows: Seq<usize>|
            rows.to_multiset() == s.rows_at[k] && #[trigger] self.weighed_by(
                worth,
                s.nodes[k].sum_gradients,
                s.nodes[k].sum_hessians,
                rows,
            )
    }

    spec fn hist_sums(
        self,
        worth: spec_fn(V) -> real,
        hist: Seq<Seq<Bin<V>>>,
        rows: Seq<usize>,
    ) -> bool {
        forall|f: int, o: int|
            0 <= f < self.columns.len() && 0 <= o < self.outputs()
                ==> #[trigger] crate::tree::vector_histogram::output_sums(
                worth,
                hist[f],
                self.gradients,
                self.hessians,
                self.outputs(),
                self.columns[f],
                rows,
                o,
            )
    }

    spec fn summed(self, worth: spec_fn(V) -> real, s: VectorGrowth<V, T>) -> bool {
        &&& forall|k: int| 0 <= k < s.nodes.len() ==> #[trigger] self.sums_of_rows(worth, s, k)
        &&& forall|j: int|
            0 <= j < s.open.len() ==> self.hist_sums(
                worth,
                (#[trigger] s.open[j]).hist,
                s.open[j].rows,
            )
    }

    proof fn lemma_histograms_sum(
        self,
        worth: spec_fn(V) -> real,
        hist: Seq<Seq<Bin<V>>>,
        rows: Seq<usize>,
    )
        requires
            crate::tree::vector_histogram::are_histograms_of(
                hist,
                self.gradients,
                self.hessians,
                self.outputs(),
                self.columns,
                rows,
            ),
        ensures
            self.hist_sums(worth, hist, rows),
    {
        let k = self.outputs();
        assert forall|f: int, o: int|
            0 <= f < self.columns.len() && 0 <= o
                < k implies #[trigger] crate::tree::vector_histogram::output_sums(
            worth,
            hist[f],
            self.gradients,
            self.hessians,
            k,
            self.columns[f],
            rows,
            o,
        ) by {
            let bins = hist[f];
            let column = self.columns[f];
            assert(crate::tree::vector_histogram::is_histogram_of(
                bins,
                self.gradients,
                self.hessians,
                k,
                column,
                rows,
            ));
            assert forall|b: int| 0 <= b < NUM_BINS implies (#[trigger] bins[b]).sums.len() == 2 * k
                && bins[b].sums[2 * o] == crate::tree::histogram::bin_sum(
                self.output_gradients(o),
                column,
                rows,
                b,
            ) && bins[b].sums[2 * o + 1] == crate::tree::histogram::bin_sum(
                self.output_hessians(o),
                column,
                rows,
                b,
            ) by {
                crate::tree::vector_histogram::lemma_bin_of_output(
                    self.gradients,
                    self.hessians,
                    k,
                    column,
                    rows,
                    b,
                    o,
                );
            }
        }
    }

    /// The histograms that remain are those of the rows that remain.
    proof fn lemma_differences_sum(
        self,
        worth: spec_fn(V) -> real,
        remaining: Seq<Seq<Bin<V>>>,
        all: Seq<Seq<Bin<V>>>,
        part: Seq<Seq<Bin<V>>>,
        rows: Seq<usize>,
        some: Seq<usize>,
        others: Seq<usize>,
        p: spec_fn(usize) -> bool,
        q: spec_fn(usize) -> bool,
    )
        requires
            crate::exact::exact(worth),
            all.len() == self.columns.len(),
            crate::tree::vector_histogram::are_bin_differences(remaining, all, part),
            self.hist_sums(worth, all, rows),
            self.hist_sums(worth, part, some),
            some.to_multiset() == rows.filter(p).to_multiset(),
            others.to_multiset() == rows.filter(q).to_multiset(),
            forall|r: usize| #[trigger] p(r) == !q(r),
        ensures
            self.hist_sums(worth, remaining, others),
    {
        let k = self.outputs();
        assert forall|f: int, o: int|
            0 <= f < self.columns.len() && 0 <= o
                < k implies #[trigger] crate::tree::vector_histogram::output_sums(
            worth,
            remaining[f],
            self.gradients,
            self.hessians,
            k,
            self.columns[f],
            others,
            o,
        ) by {
            let column = self.columns[f];
            let (g, h) = (self.output_gradients(o), self.output_hessians(o));
            let (whole, less) = (all[f], part[f]);
            let bins = remaining[f];
            assert(crate::tree::vector_histogram::is_bin_difference(bins, whole, less));
            assert(crate::tree::vector_histogram::output_sums(
                worth,
                all[f],
                self.gradients,
                self.hessians,
                k,
                column,
                rows,
                o,
            ));
            assert(crate::tree::vector_histogram::output_sums(
                worth,
                part[f],
                self.gradients,
                self.hessians,
                k,
                column,
                some,
                o,
            ));
            assert forall|b: int| 0 <= b < NUM_BINS implies (#[trigger] bins[b]).sums.len() == 2 * k
                && worth(bins[b].sums[2 * o]) == worth(
                crate::tree::histogram::bin_sum(g, column, others, b),
            ) && worth(bins[b].sums[2 * o + 1]) == worth(
                crate::tree::histogram::bin_sum(h, column, others, b),
            ) by {
                lemma_rest_of_bin(worth, g, column, rows, some, others, p, q, b);
                lemma_rest_of_bin(worth, h, column, rows, some, others, p, q, b);
                assert(whole[b].sums.len() == 2 * k && less[b].sums.len() == 2 * k);
            }
        }
    }

    /// Splitting a leaf gives each side the sums of its rows.
    proof fn lemma_split_summed(
        self,
        worth: spec_fn(V) -> real,
        s: VectorGrowth<V, T>,
        i: int,
        left: Seq<usize>,
        right: Seq<usize>,
        t: VectorGrowth<V, T>,
    )
        requires
            crate::exact::exact(worth),
            self.wf(),
            self.sound(s),
            self.summed(worth, s),
            0 <= i < s.open.len(),
            s.open[i].split == self.best(s.open[i].hist),
            self.splittable(s, s.open[i]),
            s.leaves < self.max_leaves,
            self.splits_into(s, s.open[i], s.open.remove(i), left, right, t),
        ensures
            self.summed(worth, t),
    {
        let c = s.open[i];
        let rest = s.open.remove(i);
        let d = c.split->Some_0;
        let f = d.feature_idx as int;
        let column = self.columns[f];
        let size = s.nodes.len() as int;
        let k = self.outputs();
        assert(self.sound_candidate(s, c));
        assert(self.hist_sums(worth, c.hist, c.rows));
        let order = crate::tree::split::looked_at(None, self.columns.len());
        crate::tree::vector_split::lemma_best_over_is_found(&self.finder, c.hist, order);
        assert(d == self.finder.best_on(c.hist[f], d.feature_idx));
        let p = |r: usize| column[r as int] <= d.bin_threshold;
        let q = |r: usize| !(column[r as int] <= d.bin_threshold);
        crate::tree::routing::lemma_filter_multiset(c.rows, p);
        crate::tree::routing::lemma_filter_multiset(c.rows, q);
        let (lefts, rights) = (c.rows.filter(p), c.rows.filter(q));
        assert(left.to_multiset() == lefts.to_multiset());
        assert(right.to_multiset() == rights.to_multiset());
        let v = choose|v: T|
            #[trigger] call_ensures(self.split_value, (d.feature_idx, d.bin_threshold), v)
                && t.nodes == self.nodes_after(s, c, v, left.len(), right.len());
        let (a, b) = (t.nodes[size], t.nodes[size + 1]);
        assert forall|o: int| 0 <= o < k implies {
            let (g, h) = (self.output_gradients(o), self.output_hessians(o));
            &&& worth(#[trigger] a.sum_gradients[o]) == worth(
                crate::tree::histogram::row_sum(g, left),
            )
            &&& worth(a.sum_hessians[o]) == worth(crate::tree::histogram::row_sum(h, left))
            &&& worth(b.sum_gradients[o]) == worth(crate::tree::histogram::row_sum(g, right))
            &&& worth(b.sum_hessians[o]) == worth(crate::tree::histogram::row_sum(h, right))
        } by {
            assert(crate::tree::vector_histogram::output_sums(
                worth,
                c.hist[f],
                self.gradients,
                self.hessians,
                k,
                self.columns[f],
                c.rows,
                o,
            ));
            crate::tree::vector_split::law_vector_split_sums_are_of_its_rows(
                worth,
                &self.finder,
                c.hist[f],
                d.feature_idx,
                self.gradients,
                self.hessians,
                column,
                c.rows,
                o,
            );
            let (g, h) = (self.output_gradients(o), self.output_hessians(o));
            crate::tree::histogram::lemma_sums_in_any_order(worth, g, column, left, lefts, 0);
            crate::tree::histogram::lemma_sums_in_any_order(worth, h, column, left, lefts, 0);
            crate::tree::histogram::lemma_sums_in_any_order(worth, g, column, right, rights, 0);
            crate::tree::histogram::lemma_sums_in_any_order(worth, h, column, right, rights, 0);
            assert(a.sum_gradients[o] == d.left[2 * o]);
            assert(a.sum_hessians[o] == d.left[2 * o + 1]);
            assert(b.sum_gradients[o] == d.right[2 * o]);
            assert(b.sum_hessians[o] == d.right[2 * o + 1]);
        }
        assert(self.weighed_by(worth, a.sum_gradients, a.sum_hessians, left));
        assert(self.weighed_by(worth, b.sum_gradients, b.sum_hessians, right)) by {
            assert forall|o: int| 0 <= o < k implies worth(#[trigger] b.sum_gradients[o]) == worth(
                crate::tree::histogram::row_sum(self.output_gradients(o), right),
            ) && worth(b.sum_hessians[o]) == worth(
                crate::tree::histogram::row_sum(self.output_hessians(o), right),
            ) by {
                assert(worth(a.sum_gradients[o]) == worth(
                    crate::tree::histogram::row_sum(self.output_gradients(o), left),
                ));
            }
        }
        assert forall|m: int| 0 <= m < t.nodes.len() implies #[trigger] self.sums_of_rows(
            worth,
            t,
            m,
        ) by {
            if m < size {
                assert(self.sums_of_rows(worth, s, m));
                let rows = choose|rows: Seq<usize>|
                    rows.to_multiset() == s.rows_at[m] && #[trigger] self.weighed_by(
                        worth,
                        s.nodes[m].sum_gradients,
                        s.nodes[m].sum_hessians,
                        rows,
                    );
                assert(t.rows_at[m] == s.rows_at[m]);
                assert(self.weighed_by(
                    worth,
                    t.nodes[m].sum_gradients,
                    t.nodes[m].sum_hessians,
                    rows,
                ));
            } else if m == size {
                assert(t.rows_at[m] == left.to_multiset());
            } else {
                assert(t.rows_at[m] == right.to_multiset());
            }
        }
        assert forall|j: int| 0 <= j < rest.len() implies self.hist_sums(
            worth,
            (#[trigger] rest[j]).hist,
            rest[j].rows,
        ) by {
            let from: int = if j < i {
                j
            } else {
                j + 1
            };
            assert(rest[j] == s.open[from]);
        }
        if t.leaves < self.max_leaves {
            let (small, large) = choose|small: VectorCandidate<V>, large: VectorCandidate<V>|
                #[trigger] self.children_wait(size, c, left, right, small, large) && t.open
                    == rest.push(small).push(large);
            self.lemma_histograms_sum(worth, small.hist, small.rows);
            if left.len() <= right.len() {
                self.lemma_differences_sum(
                    worth,
                    large.hist,
                    c.hist,
                    small.hist,
                    c.rows,
                    left,
                    right,
                    p,
                    q,
                );
            } else {
                self.lemma_differences_sum(
                    worth,
                    large.hist,
                    c.hist,
                    small.hist,
                    c.rows,
                    right,
                    left,
                    q,
                    p,
                );
            }
            let m = rest.len() as int;
            assert forall|j: int| 0 <= j < t.open.len() implies self.hist_sums(
                worth,
                (#[trigger] t.open[j]).hist,
                t.open[j].rows,
            ) by {
                if j < m {
                    assert(t.open[j] == rest[j]);
                } else if j == m {
                    assert(t.open[j] == small);
                } else {
                    assert(t.open[j] == large);
                }
            }
        }
    }

    proof fn lemma_growth_summed(self, worth: spec_fn(V) -> real, n: nat, s: VectorGrowth<V, T>)
        requires
            crate::exact::exact(worth),
            self.wf(),
            self.grows(n, s),
        ensures
            self.summed(worth, s),
        decreases n,
    {
        if n == 0 {
            self.lemma_histograms_sum(worth, s.open[0].hist, self.rows);
            let k = self.outputs();
            assert forall|o: int| 0 <= o < k implies s.nodes[0].sum_gradients[o]
                == crate::tree::histogram::row_sum(self.output_gradients(o), self.rows)
                && s.nodes[0].sum_hessians[o] == crate::tree::histogram::row_sum(
                self.output_hessians(o),
                self.rows,
            ) by {
                lemma_row_totals_by_output(self.gradients, k, self.rows, o);
                lemma_row_totals_by_output(self.hessians, k, self.rows, o);
            }
            assert(self.weighed_by(
                worth,
                s.nodes[0].sum_gradients,
                s.nodes[0].sum_hessians,
                self.rows,
            ));
            assert(self.sums_of_rows(worth, s, 0));
        } else {
            let (before, i) = choose|before: VectorGrowth<V, T>, i: int|
                self.grows((n - 1) as nat, before) && #[trigger] self.steps(before, i, s);
            self.lemma_growth_summed(worth, (n - 1) as nat, before);
            self.lemma_waiting_splits_are_best((n - 1) as nat, before);
            self.law_vector_growth_is_sound((n - 1) as nat, before);
            if self.splittable(before, before.open[i]) {
                let (left, right) = choose|left: Seq<usize>, right: Seq<usize>|
                    #[trigger] self.splits_into(
                        before,
                        before.open[i],
                        before.open.remove(i),
                        left,
                        right,
                        s,
                    );
                self.lemma_split_summed(worth, before, i, left, right, s);
            } else {
                assert forall|j: int| 0 <= j < s.open.len() implies self.hist_sums(
                    worth,
                    (#[trigger] s.open[j]).hist,
                    s.open[j].rows,
                ) by {
                    let from: int = if j < i {
                        j
                    } else {
                        j + 1
                    };
                    assert(s.open[j] == before.open[from]);
                }
                assert forall|m: int| 0 <= m < s.nodes.len() implies #[trigger] self.sums_of_rows(
                    worth,
                    s,
                    m,
                ) by {
                    assert(self.sums_of_rows(worth, before, m));
                }
            }
        }
    }

    /// The sums of every node are, output by output, those of the rows at the node:
    /// of each row that its tests lead there, and of no other.
    pub proof fn law_vector_node_sums_are_of_its_rows(
        self,
        worth: spec_fn(V) -> real,
        n: nat,
        s: VectorGrowth<V, T>,
    )
        requires
            crate::exact::exact(worth),
            self.wf(),
            self.grows(n, s),
        ensures
            forall|k: int| 0 <= k < s.nodes.len() ==> #[trigger] self.sums_of_rows(worth, s, k),
    {
        self.lemma_growth_summed(worth, n, s);
    }
}

proof fn lemma_rest_of_bin<V: Number>(
    worth: spec_fn(V) -> real,
    values: Seq<V>,
    column: Seq<u8>,
    rows: Seq<usize>,
    some: Seq<usize>,
    others: Seq<usize>,
    p: spec_fn(usize) -> bool,
    q: spec_fn(usize) -> bool,
    b: int,
)
    requires
        crate::exact::exact(worth),
        some.to_multiset() == rows.filter(p).to_multiset(),
        others.to_multiset() == rows.filter(q).to_multiset(),
        forall|r: usize| #[trigger] p(r) == !q(r),
    ensures
        worth(crate::tree::histogram::bin_sum(values, column, rows, b)) == worth(
            crate::tree::histogram::bin_sum(values, column, some, b),
        ) + worth(crate::tree::histogram::bin_sum(values, column, others, b)),
{
    let (x, y) = (rows.filter(p), rows.filter(q));
    crate::tree::histogram::lemma_sums_divided(worth, values, column, rows, p, q, b);
    crate::tree::histogram::lemma_sums_in_any_order(worth, values, column, some, x, b);
    crate::tree::histogram::lemma_sums_in_any_order(worth, values, column, others, y, b);
}

proof fn lemma_row_totals_by_output<V: Number>(buffer: Seq<V>, k: nat, rows: Seq<usize>, o: int)
    requires
        0 <= o < k,
    ensures
        row_totals(buffer, k, rows).len() == k,
        row_totals(buffer, k, rows)[o] == crate::tree::histogram::row_sum(
            crate::tree::vector_histogram::output_of(buffer, k, o),
            rows,
        ),
    decreases rows.len(),
{
    let values = crate::tree::vector_histogram::output_of(buffer, k, o);
    if rows.len() > 0 {
        let fewer = rows.drop_last();
        lemma_row_totals_by_output(buffer, k, fewer, o);
        crate::tree::histogram::lemma_row_sum_push(values, fewer, rows.last());
        assert(rows =~= fewer.push(rows.last()));
        assert(values[rows.last() as int] == buffer[rows.last() as int * k + o]);
    } else {
        assert(Seq::new(rows.len(), |i: int| values[rows[i] as int]) =~= Seq::<V>::empty());
    }
}

impl<V: Number, T, S: Fn(usize, u8) -> T> VectorProblem<V, S> {
    /// For each output, the value of a leaf, times the regularized hessians of the
    /// rows that its tests lead there, makes up for the shrunk gradients of these
    /// rows.
    pub proof fn law_vector_leaf_values_make_up_for_its_rows(
        self,
        worth: spec_fn(V) -> real,
        n: nat,
        s: VectorGrowth<V, T>,
        k: int,
        o: int,
    )
        requires
            crate::exact::exact(worth),
            self.wf(),
            self.grows(n, s),
            0 <= k < s.nodes.len(),
            s.nodes[k].fork() is End,
            0 <= o < self.outputs(),
            worth(s.nodes[k].sum_hessians[o]) + worth(self.finder.lambda) != 0real,
        ensures
            exists|rows: Seq<usize>|
                {
                    let g = worth(
                        #[trigger] crate::tree::histogram::row_sum(self.output_gradients(o), rows),
                    );
                    let h = worth(crate::tree::histogram::row_sum(self.output_hessians(o), rows));
                    &&& rows.to_multiset() == s.rows_at[k]
                    &&& worth(s.nodes[k].values[o]) * (h + worth(self.finder.lambda)) + g * worth(
                        self.learning_rate,
                    ) == 0real
                },
    {
        self.law_vector_growth_weighs_leaves(n, s);
        self.law_vector_node_sums_are_of_its_rows(worth, n, s);
        assert(self.sums_of_rows(worth, s, k));
        let node = s.nodes[k];
        let rows = choose|rows: Seq<usize>|
            rows.to_multiset() == s.rows_at[k] && #[trigger] self.weighed_by(
                worth,
                node.sum_gradients,
                node.sum_hessians,
                rows,
            );
        let g = worth(node.sum_gradients[o]);
        let all = worth(node.sum_hessians[o]) + worth(self.finder.lambda);
        let rate = worth(self.learning_rate);
        let less = 0real - g;
        crate::exact::lemma_quotient(less, all);
        let w = less / all;
        assert(worth(node.values[o]) == w * rate);
        assert((w * rate) * all == (w * all) * rate) by (nonlinear_arith);
        assert(less * rate == 0real - g * rate) by (nonlinear_arith)
            requires
                less == 0real - g,
        ;
        assert(worth(crate::tree::histogram::row_sum(self.output_gradients(o), rows)) == g);
    }
}

} // verus!
