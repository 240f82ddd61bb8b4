//! Growing a tree, best split first.
//!
//! The open leaves wait in a queue with the best split of each. The leaf whose
//! split gains most is taken; unless it has no split or is too deep, its rows
//! are handed to two new leaves, which join the queue. Growth ends when the
//! queue is empty or the tree has enough leaves.

use crate::functions::Functions;
use crate::number::{lowest_number, sum, Number};
use crate::tree::dataset::BinnedDataset;
use crate::tree::histogram::{BinEntry, NodeHistograms, NUM_BINS};
use crate::tree::node::{Node, NodeType};
use crate::tree::shape::Fork;
use crate::tree::split::{leaf_weight, NodeTotals, SplitFinder, SplitInfo};
use crate::tree::tree::Tree;
use vstd::multiset::Multiset;
use vstd::prelude::*;

verus! {

/// The settings by which a tree is grown.
#[derive(Debug, Clone)]
pub struct TreeGrower<V> {
    /// The greatest depth of a node.
    pub max_depth: usize,
    /// The greatest number of leaves.
    pub max_leaves: usize,
    /// The L2 regularization.
    pub lambda: V,
    /// The least number of rows of a leaf.
    pub min_samples_leaf: usize,
    /// The least sum of hessians of a leaf.
    pub min_hessian_leaf: V,
    /// The weight of the entropy of a split.
    pub entropy_weight: V,
    /// The least gain of a split.
    pub min_gain: V,
    /// The factor by which the values of leaves are shrunk.
    pub learning_rate: V,
}

/// What a tree is grown from.
pub struct Problem<V, F, S> {
    /// How splits are found.
    pub finder: SplitFinder<V>,
    /// The greatest depth of a node.
    pub max_depth: nat,
    /// The greatest number of leaves.
    pub max_leaves: nat,
    /// The factor by which the values of leaves are shrunk.
    pub learning_rate: V,
    /// The number of rows.
    pub num_rows: nat,
    /// The bins, column by column.
    pub columns: Seq<Seq<u8>>,
    /// The gradient of each row.
    pub gradients: Seq<V>,
    /// The hessian of each row.
    pub hessians: Seq<V>,
    /// The functions on numbers.
    pub functions: F,
    /// The value at which a split of a feature after a bin divides.
    pub split_value: S,
}

/// A leaf that waits to be split.
pub struct Candidate<V> {
    /// The place of the leaf.
    pub node: int,
    /// Its rows.
    pub rows: Seq<usize>,
    /// The histograms of its rows.
    pub hist: Seq<Seq<BinEntry<V>>>,
    /// Its best split, if it has one.
    pub split: Option<SplitInfo<V>>,
}

/// A tree that is being grown.
pub struct Growth<V, T> {
    /// The nodes so far.
    pub nodes: Seq<Node<V, T>>,
    /// The rows at each node.
    pub rows_at: Seq<Multiset<usize>>,
    /// The leaves that wait.
    pub open: Seq<Candidate<V>>,
    /// The number of leaves.
    pub leaves: nat,
}

/// All rows, in order.
pub open spec fn all_rows(n: nat) -> Seq<usize> {
    Seq::new(n, |i: int| i as usize)
}

/// The rows that a test leads to the left.
pub open spec fn rows_left(column: Seq<u8>, rows: Seq<usize>, threshold: u8) -> Seq<usize> {
    rows.filter(|r: usize| column[r as int] <= threshold)
}

/// The rows that a test leads to the right.
pub open spec fn rows_right(column: Seq<u8>, rows: Seq<usize>, threshold: u8) -> Seq<usize> {
    rows.filter(|r: usize| !(column[r as int] <= threshold))
}

impl<V: Number> Candidate<V> {
    /// What the best split gains; less than anything, if there is none.
    pub open spec fn gain(self) -> V {
        match self.split {
            Some(s) => s.gain,
            None => crate::number::lowest(),
        }
    }
}

/// No waiting leaf has a split that gains more than that of leaf `i`.
pub open spec fn gains_most<V: Number>(open: Seq<Candidate<V>>, i: int) -> bool {
    &&& 0 <= i < open.len()
    &&& forall|j: int|
        0 <= j < open.len() ==> !crate::number::above((#[trigger] open[j]).gain(), open[i].gain())
}

impl<V: Number, T, F: Functions<V>, S: Fn(usize, u8) -> T> Problem<V, F, S> {
    /// The data fit together.
    pub open spec fn wf(self) -> bool {
        &&& self.num_rows <= u32::MAX
        &&& self.max_depth <= usize::MAX
        &&& self.gradients.len() == self.num_rows
        &&& self.hessians.len() == self.num_rows
        &&& forall|f: int|
            0 <= f < self.columns.len() ==> (#[trigger] self.columns[f]).len() == self.num_rows
    }

    /// A leaf with the given sums.
    pub open spec fn leaf(self, gradient: V, hessian: V, depth: nat, rows: nat) -> Node<V, T> {
        Node {
            node_type: NodeType::Leaf {
                value: crate::number::times(
                    crate::tree::split::weight(gradient, hessian, self.finder.lambda),
                    self.learning_rate,
                ),
            },
            depth: depth as usize,
            num_samples: rows as usize,
            sum_gradients: gradient,
            sum_hessians: hessian,
        }
    }

    /// `c` waits at `node` with the given rows and sums.
    pub open spec fn waits(
        self,
        c: Candidate<V>,
        node: int,
        rows: Seq<usize>,
        gradient: V,
        hessian: V,
    ) -> bool {
        &&& c.node == node
        &&& c.rows == rows
        &&& self.finder.finds(
            c.hist,
            crate::tree::split::looked_at(None, self.columns.len()),
            NodeTotals { gradient, hessian, count: rows.len() as u32 },
            self.functions,
            c.split,
        )
    }

    /// Growth begins with a root that holds all rows.
    pub open spec fn begins(self, s: Growth<V, T>) -> bool {
        let g = crate::number::total(self.gradients);
        let h = crate::number::total(self.hessians);
        let all = all_rows(self.num_rows);
        &&& s.nodes == seq![self.leaf(g, h, 0, self.num_rows)]
        &&& s.rows_at == seq![all.to_multiset()]
        &&& s.leaves == 1
        &&& s.open.len() == 1
        &&& self.waits(s.open[0], 0, all, g, h)
        &&& crate::tree::histogram::are_histograms(
            s.open[0].hist,
            self.columns,
            self.gradients,
            self.hessians,
            all,
        )
    }

    /// Leaf `c` is split when its turn comes: it has a split and is not too
    /// deep.
    pub open spec fn splittable(self, s: Growth<V, T>, c: Candidate<V>) -> bool {
        &&& c.split is Some
        &&& c.split->Some_0.valid()
        &&& s.nodes[c.node].depth < self.max_depth
    }

    /// The nodes once leaf `c` has been split, where the split divides at `v`.
    pub open spec fn nodes_after(self, s: Growth<V, T>, c: Candidate<V>, v: T) -> Seq<Node<V, T>> {
        let split = c.split->Some_0;
        let column = self.columns[split.feature_idx as int];
        let depth = (s.nodes[c.node].depth + 1) as nat;
        s.nodes.update(
            c.node,
            Node {
                node_type: NodeType::Internal {
                    feature_idx: split.feature_idx,
                    bin_threshold: split.bin_threshold,
                    split_value: v,
                    left_child: s.nodes.len() as usize,
                    right_child: (s.nodes.len() + 1) as usize,
                },
                ..s.nodes[c.node]
            },
        ).push(
            self.leaf(
                split.left_gradient,
                split.left_hessian,
                depth,
                rows_left(column, c.rows, split.bin_threshold).len(),
            ),
        ).push(
            self.leaf(
                split.right_gradient,
                split.right_hessian,
                depth,
                rows_right(column, c.rows, split.bin_threshold).len(),
            ),
        )
    }

    /// The new leaves wait: `small` is the one with fewer rows, with histograms
    /// of its own, and `large` the other, with the histograms that remain.
    pub open spec fn children_wait(
        self,
        s: Growth<V, T>,
        c: Candidate<V>,
        small: Candidate<V>,
        large: Candidate<V>,
    ) -> bool {
        let split = c.split->Some_0;
        let column = self.columns[split.feature_idx as int];
        let left = rows_left(column, c.rows, split.bin_threshold);
        let right = rows_right(column, c.rows, split.bin_threshold);
        let n = s.nodes.len() as int;
        &&& if left.len() <= right.len() {
            &&& self.waits(small, n, left, split.left_gradient, split.left_hessian)
            &&& self.waits(large, n + 1, right, split.right_gradient, split.right_hessian)
        } else {
            &&& self.waits(small, n + 1, right, split.right_gradient, split.right_hessian)
            &&& self.waits(large, n, left, split.left_gradient, split.left_hessian)
        }
        &&& crate::tree::histogram::are_histograms(
            small.hist,
            self.columns,
            self.gradients,
            self.hessians,
            small.rows,
        )
        &&& crate::tree::histogram::are_differences(large.hist, c.hist, small.hist)
    }

    /// Leaf `c`, which was waiting, is split; `rest` are those that wait on.
    pub open spec fn splits(
        self,
        s: Growth<V, T>,
        c: Candidate<V>,
        rest: Seq<Candidate<V>>,
        t: Growth<V, T>,
    ) -> bool {
        let split = c.split->Some_0;
        let column = self.columns[split.feature_idx as int];
        &&& exists|v: T|
            #[trigger] call_ensures(self.split_value, (split.feature_idx, split.bin_threshold), v)
                && t.nodes == self.nodes_after(s, c, v)
        &&& t.nodes.len() <= usize::MAX
        &&& t.rows_at == s.rows_at.push(
            rows_left(column, c.rows, split.bin_threshold).to_multiset(),
        ).push(rows_right(column, c.rows, split.bin_threshold).to_multiset())
        &&& t.leaves == s.leaves + 1
        &&& if t.leaves >= self.max_leaves {
            t.open == rest
        } else {
            exists|small: Candidate<V>, large: Candidate<V>|
                #[trigger] self.children_wait(s, c, small, large) && t.open == rest.push(
                    small,
                ).push(large)
        }
    }

    /// The turn of waiting leaf `i` leads from `s` to `t`.
    pub open spec fn steps(self, s: Growth<V, T>, i: int, t: Growth<V, T>) -> bool {
        &&& gains_most(s.open, i)
        &&& s.leaves < self.max_leaves
        &&& if self.splittable(s, s.open[i]) {
            self.splits(s, s.open[i], s.open.remove(i), t)
        } else {
            t == (Growth { open: s.open.remove(i), ..s })
        }
    }

    /// Growth may have come to `s` after `n` turns.
    pub open spec fn grows(self, n: nat, s: Growth<V, T>) -> bool
        decreases n,
    {
        if n == 0 {
            self.begins(s)
        } else {
            exists|before: Growth<V, T>, i: int|
                self.grows((n - 1) as nat, before) && #[trigger] self.steps(before, i, s)
        }
    }

    /// Growth ends: no leaf waits, or there are enough.
    pub open spec fn ends(self, s: Growth<V, T>) -> bool {
        s.open.len() == 0 || s.leaves >= self.max_leaves
    }
}

/// The tests of a tree on the rows of the data.
pub open spec fn route<V, T>(nodes: Seq<Node<V, T>>, columns: Seq<Seq<u8>>) -> spec_fn(
    int,
    usize,
) -> bool {
    |i: int, r: usize|
        columns[crate::tree::tree::feature_at(nodes, i) as int][r as int]
            <= crate::tree::tree::threshold_at(nodes, i)
}

/// A child is one step deeper than its parent.
pub open spec fn depths_agree<V, T>(nodes: Seq<Node<V, T>>) -> bool {
    &&& nodes[0].depth == 0
    &&& forall|i: int|
        0 <= i < nodes.len() && (#[trigger] nodes[i]).fork() is Branch
            ==> nodes[nodes[i].fork()->left].depth == nodes[i].depth + 1
            && nodes[nodes[i].fork()->right].depth == nodes[i].depth + 1
}

impl<V: Number, T, F: Functions<V>, S: Fn(usize, u8) -> T> Problem<V, F, S> {
    /// Waiting leaf `c` is a leaf, and its rows and their histograms are right.
    pub open spec fn sound_candidate(self, s: Growth<V, T>, c: Candidate<V>) -> bool {
        &&& 0 <= c.node < s.nodes.len()
        &&& s.nodes[c.node].fork() is End
        &&& c.rows.to_multiset() == s.rows_at[c.node]
        &&& c.rows.len() <= self.num_rows
        &&& forall|k: int| 0 <= k < c.rows.len() ==> (#[trigger] c.rows[k]) < self.num_rows
        &&& crate::tree::histogram::count_rows(c.hist, self.columns, c.rows)
        &&& c.split is Some ==> c.split->Some_0.feature_idx < self.columns.len()
    }

    /// The tree so far is a tree: every row is where its tests lead, every node
    /// knows how many rows it has and how deep it is, and the limits are kept.
    pub open spec fn sound(self, s: Growth<V, T>) -> bool {
        &&& self.sound_tree(s)
        &&& forall|j: int| 0 <= j < s.open.len() ==> self.sound_candidate(s, #[trigger] s.open[j])
        &&& forall|j: int, k: int|
            0 <= j < k < s.open.len() ==> (#[trigger] s.open[j]).node != (
            #[trigger] s.open[k]).node
    }

    /// The part of [`Problem::sound`] that does not speak of waiting leaves.
    pub open spec fn sound_tree(self, s: Growth<V, T>) -> bool {
        let shape = crate::tree::tree::shape_of(s.nodes);
        &&& crate::tree::routing::routed(
            shape,
            route(s.nodes, self.columns),
            s.rows_at,
            all_rows(self.num_rows).to_multiset(),
        )
        &&& crate::tree::shape::leaf_count(shape) == s.leaves
        &&& s.nodes.len() == 2 * s.leaves - 1
        &&& s.leaves <= 1 || s.leaves <= self.max_leaves
        &&& crate::tree::tree::tests_within(s.nodes, self.columns.len())
        &&& depths_agree(s.nodes)
        &&& forall|i: int|
            0 <= i < s.nodes.len() ==> (#[trigger] s.nodes[i]).depth <= self.max_depth
                && s.nodes[i].num_samples == s.rows_at[i].len()
    }
}

proof fn lemma_filter_part(rows: Seq<usize>, keep: spec_fn(usize) -> bool, bound: nat)
    requires
        forall|k: int| 0 <= k < rows.len() ==> (#[trigger] rows[k]) < bound,
    ensures
        rows.filter(keep).len() <= rows.len(),
        forall|k: int|
            0 <= k < rows.filter(keep).len() ==> (#[trigger] rows.filter(keep)[k]) < bound,
    decreases rows.len(),
{
    reveal(Seq::filter);
    if rows.len() > 0 {
        let fewer = rows.drop_last();
        assert forall|k: int| 0 <= k < fewer.len() implies (#[trigger] fewer[k]) < bound by {
            assert(fewer[k] == rows[k]);
        }
        lemma_filter_part(fewer, keep, bound);
        assert(rows.last() == rows[rows.len() - 1]);
    }
}

proof fn lemma_split_feature_in_range<V: Number, F: Functions<V>>(
    finder: &SplitFinder<V>,
    hist: Seq<Seq<BinEntry<V>>>,
    num_features: nat,
    totals: NodeTotals<V>,
    functions: F,
    r: Option<SplitInfo<V>>,
)
    requires
        finder.finds(
            hist,
            crate::tree::split::looked_at(None, num_features),
            totals,
            functions,
            r,
        ),
        num_features <= usize::MAX,
    ensures
        r is Some ==> r->Some_0.feature_idx < num_features,
{
    if r is Some {
        let order = crate::tree::split::looked_at(None, num_features);
        crate::tree::split::lemma_found_on_feature(
            finder,
            hist,
            order,
            totals,
            functions,
            r->Some_0,
        );
        let f = r->Some_0.feature_idx;
        let i = choose|i: int| 0 <= i < order.len() && order[i] == f;
    }
}

impl<V: Number, T, F: Functions<V>, S: Fn(usize, u8) -> T> Problem<V, F, S> {
    /// Growth begins soundly.
    proof fn lemma_begins_sound(self, s: Growth<V, T>)
        requires
            self.wf(),
            self.columns.len() <= usize::MAX,
            self.begins(s),
        ensures
            self.sound(s),
    {
        broadcast use vstd::seq_lib::group_to_multiset_ensures;

        let all = all_rows(self.num_rows);
        let shape = crate::tree::tree::shape_of(s.nodes);
        assert(shape =~= seq![Fork::End]);
        crate::tree::shape::lemma_leaf_count_push(Seq::empty(), Fork::End);
        assert(Seq::<Fork>::empty().push(Fork::End) =~= shape);
        assert(s.nodes[0].num_samples == all.len());
        let c = s.open[0];
        assert forall|f: int| 0 <= f < c.hist.len() implies crate::tree::histogram::counts_rows(
            #[trigger] c.hist[f],
            self.columns[f],
            all,
        ) by {
            crate::tree::histogram::lemma_histogram_counts(
                c.hist[f],
                self.columns[f],
                self.gradients,
                self.hessians,
                all,
            );
        }
        lemma_split_feature_in_range(
            &self.finder,
            c.hist,
            self.columns.len(),
            NodeTotals {
                gradient: crate::number::total(self.gradients),
                hessian: crate::number::total(self.hessians),
                count: all.len() as u32,
            },
            self.functions,
            c.split,
        );
    }

    /// A new leaf waits soundly.
    proof fn lemma_child_sound(
        self,
        t: Growth<V, T>,
        c: Candidate<V>,
        node: int,
        rows: Seq<usize>,
        gradient: V,
        hessian: V,
    )
        requires
            self.wf(),
            self.columns.len() <= usize::MAX,
            self.waits(c, node, rows, gradient, hessian),
            0 <= node < t.nodes.len(),
            t.nodes[node].fork() is End,
            rows.to_multiset() == t.rows_at[node],
            rows.len() <= self.num_rows,
            forall|k: int| 0 <= k < rows.len() ==> (#[trigger] rows[k]) < self.num_rows,
            crate::tree::histogram::count_rows(c.hist, self.columns, rows),
        ensures
            self.sound_candidate(t, c),
    {
        lemma_split_feature_in_range(
            &self.finder,
            c.hist,
            self.columns.len(),
            NodeTotals { gradient, hessian, count: rows.len() as u32 },
            self.functions,
            c.split,
        );
    }

    /// Splitting a leaf leaves a tree.
    proof fn lemma_split_tree_sound(
        self,
        s: Growth<V, T>,
        c: Candidate<V>,
        rest: Seq<Candidate<V>>,
        t: Growth<V, T>,
    )
        requires
            self.wf(),
            self.sound_tree(s),
            self.sound_candidate(s, c),
            self.splittable(s, c),
            s.leaves < self.max_leaves,
            self.splits(s, c, rest, t),
        ensures
            self.sound_tree(t),
            t.nodes.len() == s.nodes.len() + 2,
            forall|i: int|
                0 <= i < s.nodes.len() && i != c.node ==> #[trigger] t.nodes[i] == s.nodes[i],
            t.nodes[s.nodes.len() as int].fork() is End,
            t.nodes[(s.nodes.len() + 1) as int].fork() is End,
    {
        broadcast use vstd::seq_lib::group_to_multiset_ensures;

        let split = c.split->Some_0;
        let column = self.columns[split.feature_idx as int];
        let v = choose|v: T|
            #[trigger] call_ensures(self.split_value, (split.feature_idx, split.bin_threshold), v)
                && t.nodes == self.nodes_after(s, c, v);
        let n = s.nodes.len() as int;
        let k = c.node;
        let before = crate::tree::tree::shape_of(s.nodes);
        let shape = crate::tree::tree::shape_of(t.nodes);
        let branch = Fork::Branch { left: n, right: n + 1 };
        let old_route = route(s.nodes, self.columns);
        let new_route = route(t.nodes, self.columns);
        assert(before[k] == s.nodes[k].fork());
        assert(t.nodes[k].fork() == branch);
        assert(shape =~= before.update(k, branch).push(Fork::End).push(Fork::End));
        let left = rows_left(column, c.rows, split.bin_threshold);
        let right = rows_right(column, c.rows, split.bin_threshold);
        let keep_l = |r: usize| column[r as int] <= split.bin_threshold;
        let keep_r = |r: usize| !(column[r as int] <= split.bin_threshold);
        crate::tree::routing::lemma_filter_multiset(c.rows, keep_l);
        crate::tree::routing::lemma_filter_multiset(c.rows, keep_r);
        lemma_filter_part(c.rows, keep_l, self.num_rows);
        lemma_filter_part(c.rows, keep_r, self.num_rows);
        let on_l = |r: usize| new_route(k, r) == true;
        let on_r = |r: usize| new_route(k, r) == false;
        assert(keep_l =~= on_l);
        assert(keep_r =~= on_r);
        assert(left.to_multiset() == s.rows_at[k].filter(keep_l));
        assert(right.to_multiset() == s.rows_at[k].filter(keep_r));
        assert(crate::tree::routing::side(s.rows_at[k], new_route, k, true)
            == s.rows_at[k].filter(on_l));
        assert(crate::tree::routing::side(s.rows_at[k], new_route, k, false)
            == s.rows_at[k].filter(on_r));
        crate::tree::routing::lemma_split_routed(
            before,
            old_route,
            new_route,
            s.rows_at,
            all_rows(self.num_rows).to_multiset(),
            k,
        );
        assert(t.rows_at =~= s.rows_at.push(
            crate::tree::routing::side(s.rows_at[k], new_route, k, true),
        ).push(crate::tree::routing::side(s.rows_at[k], new_route, k, false)));
        crate::tree::shape::lemma_leaf_count_split(before, k, branch);
        crate::tree::shape::lemma_leaf_count_push(before.update(k, branch), Fork::End);
        crate::tree::shape::lemma_leaf_count_push(
            before.update(k, branch).push(Fork::End),
            Fork::End,
        );
        assert forall|i: int|
            0 <= i < t.nodes.len() && (#[trigger] t.nodes[i]).fork() is Branch implies t.nodes[t.nodes[i].fork()->left].depth
            == t.nodes[i].depth + 1 && t.nodes[t.nodes[i].fork()->right].depth == t.nodes[i].depth
            + 1 by {
            if i != k {
                assert(t.nodes[i] == s.nodes[i]);
                assert(before[i] is Branch);
                let l = s.nodes[i].fork()->left;
                let r = s.nodes[i].fork()->right;
                assert(t.nodes[l].depth == s.nodes[l].depth);
                assert(t.nodes[r].depth == s.nodes[r].depth);
            }
        }
        assert forall|i: int| 0 <= i < t.nodes.len() implies (#[trigger] t.nodes[i]).depth
            <= self.max_depth && t.nodes[i].num_samples == t.rows_at[i].len() by {
            if i < n {
                assert(t.nodes[i].depth == s.nodes[i].depth);
                assert(t.nodes[i].num_samples == s.nodes[i].num_samples);
            }
        }
    }

    /// Splitting a leaf keeps growth sound.
    proof fn lemma_split_sound(
        self,
        s: Growth<V, T>,
        i: int,
        t: Growth<V, T>,
    )
        requires
            self.wf(),
            self.columns.len() <= usize::MAX,
            self.sound(s),
            0 <= i < s.open.len(),
            self.splittable(s, s.open[i]),
            s.leaves < self.max_leaves,
            self.splits(s, s.open[i], s.open.remove(i), t),
        ensures
            self.sound(t),
    {
        let c = s.open[i];
        let rest = s.open.remove(i);
        self.lemma_split_tree_sound(s, c, rest, t);
        let n = s.nodes.len() as int;
        assert forall|j: int| 0 <= j < rest.len() implies self.sound_candidate(
            t,
            #[trigger] rest[j],
        ) && rest[j].node < n by {
            let o: int = if j < i {
                j
            } else {
                j + 1
            };
            assert(rest[j] == s.open[o]);
            assert(self.sound_candidate(s, s.open[o]));
            assert(s.open[o].node != c.node);
        }
        assert forall|j: int, k: int| 0 <= j < k < rest.len() implies (#[trigger] rest[j]).node != (
        #[trigger] rest[k]).node by {
            let oj: int = if j < i {
                j
            } else {
                j + 1
            };
            let ok: int = if k < i {
                k
            } else {
                k + 1
            };
            assert(rest[j] == s.open[oj] && rest[k] == s.open[ok]);
        }
        if t.leaves < self.max_leaves {
            let (small, large) = choose|small: Candidate<V>, large: Candidate<V>|
                #[trigger] self.children_wait(s, c, small, large) && t.open == rest.push(
                    small,
                ).push(large);
            let split = c.split->Some_0;
            let column = self.columns[split.feature_idx as int];
            let left = rows_left(column, c.rows, split.bin_threshold);
            let right = rows_right(column, c.rows, split.bin_threshold);
            let keep_l = |r: usize| column[r as int] <= split.bin_threshold;
            let keep_r = |r: usize| !(column[r as int] <= split.bin_threshold);
            lemma_filter_part(c.rows, keep_l, self.num_rows);
            lemma_filter_part(c.rows, keep_r, self.num_rows);
            assert forall|f: int|
                0 <= f < small.hist.len() implies crate::tree::histogram::counts_rows(
                #[trigger] small.hist[f],
                self.columns[f],
                small.rows,
            ) by {
                crate::tree::histogram::lemma_histogram_counts(
                    small.hist[f],
                    self.columns[f],
                    self.gradients,
                    self.hessians,
                    small.rows,
                );
            }
            assert(crate::tree::histogram::count_rows(small.hist, self.columns, small.rows));
            assert forall|f: int|
                0 <= f < large.hist.len() implies crate::tree::histogram::counts_rows(
                #[trigger] large.hist[f],
                self.columns[f],
                large.rows,
            ) by {
                assert(crate::tree::histogram::counts_rows(c.hist[f], self.columns[f], c.rows));
                assert(crate::tree::histogram::counts_rows(
                    small.hist[f],
                    self.columns[f],
                    small.rows,
                ));
                if left.len() <= right.len() {
                    crate::tree::histogram::lemma_difference_counts(
                        large.hist[f],
                        c.hist[f],
                        small.hist[f],
                        self.columns[f],
                        c.rows,
                        keep_l,
                        keep_r,
                    );
                } else {
                    crate::tree::histogram::lemma_difference_counts(
                        large.hist[f],
                        c.hist[f],
                        small.hist[f],
                        self.columns[f],
                        c.rows,
                        keep_r,
                        keep_l,
                    );
                }
            }
            if left.len() <= right.len() {
                self.lemma_child_sound(
                    t,
                    small,
                    n,
                    left,
                    split.left_gradient,
                    split.left_hessian,
                );
                self.lemma_child_sound(
                    t,
                    large,
                    n + 1,
                    right,
                    split.right_gradient,
                    split.right_hessian,
                );
            } else {
                self.lemma_child_sound(
                    t,
                    small,
                    n + 1,
                    right,
                    split.right_gradient,
                    split.right_hessian,
                );
                self.lemma_child_sound(
                    t,
                    large,
                    n,
                    left,
                    split.left_gradient,
                    split.left_hessian,
                );
            }
            assert forall|j: int| 0 <= j < t.open.len() implies self.sound_candidate(
                t,
                #[trigger] t.open[j],
            ) by {
                if j < rest.len() {
                    assert(t.open[j] == rest[j]);
                }
            }
            assert forall|j: int, k: int| 0 <= j < k < t.open.len() implies (
            #[trigger] t.open[j]).node != (#[trigger] t.open[k]).node by {
                if j < rest.len() {
                    assert(t.open[j] == rest[j]);
                    assert(rest[j].node < n);
                }
                if k < rest.len() {
                    assert(t.open[k] == rest[k]);
                }
            }
        }
    }

    /// A turn keeps growth sound.
    proof fn lemma_step_sound(self, s: Growth<V, T>, i: int, t: Growth<V, T>)
        requires
            self.wf(),
            self.columns.len() <= usize::MAX,
            self.sound(s),
            self.steps(s, i, t),
        ensures
            self.sound(t),
    {
        if self.splittable(s, s.open[i]) {
            self.lemma_split_sound(s, i, t);
        } else {
            assert forall|j: int| 0 <= j < t.open.len() implies self.sound_candidate(
                t,
                #[trigger] t.open[j],
            ) by {
                let o: int = if j < i {
                    j
                } else {
                    j + 1
                };
                assert(t.open[j] == s.open[o]);
                assert(self.sound_candidate(s, s.open[o]));
            }
            assert forall|j: int, k: int| 0 <= j < k < t.open.len() implies (
            #[trigger] t.open[j]).node != (#[trigger] t.open[k]).node by {
                let oj: int = if j < i {
                    j
                } else {
                    j + 1
                };
                let ok: int = if k < i {
                    k
                } else {
                    k + 1
                };
                assert(t.open[j] == s.open[oj] && t.open[k] == s.open[ok]);
            }
        }
    }

    /// Growth is sound at every moment: what it has is a tree, in which every
    /// row is where its tests lead, with `2n - 1` nodes for `n` leaves, within
    /// the limits on leaves and depth.
    pub proof fn law_growth_is_sound(self, n: nat, s: Growth<V, T>)
        requires
            self.wf(),
            self.columns.len() <= usize::MAX,
            self.grows(n, s),
        ensures
            self.sound(s),
        decreases n,
    {
        if n == 0 {
            self.lemma_begins_sound(s);
        } else {
            let (before, i) = choose|before: Growth<V, T>, i: int|
                self.grows((n - 1) as nat, before) && #[trigger] self.steps(before, i, s);
            self.law_growth_is_sound((n - 1) as nat, before);
            self.lemma_step_sound(before, i, s);
        }
    }
}

/// The number of samples of a leaf is the number of rows whose tests lead
/// there.
pub open spec fn leaf_samples_right<V, T>(
    nodes: Seq<Node<V, T>>,
    columns: Seq<Seq<u8>>,
    rows: Multiset<usize>,
) -> bool {
    forall|leaf: int|
        0 <= leaf < nodes.len() && (#[trigger] nodes[leaf]).fork() is End
            ==> nodes[leaf].num_samples == rows.filter(
            |r: usize|
                crate::tree::shape::leaf_reached(
                    crate::tree::tree::shape_of(nodes),
                    crate::tree::tree::row_tests(nodes, columns, r as int),
                ) == leaf,
        ).len()
}

/// A grown tree: every descent ends, all tests are on features that exist,
/// nodes know their depth and the rows they have, and the limits are kept.
pub open spec fn grown<V, T>(
    nodes: Seq<Node<V, T>>,
    columns: Seq<Seq<u8>>,
    rows: Multiset<usize>,
    max_leaves: nat,
    max_depth: nat,
) -> bool {
    let shape = crate::tree::tree::shape_of(nodes);
    let leaves = crate::tree::shape::leaf_count(shape);
    &&& crate::tree::shape::descends(shape)
    &&& crate::tree::tree::tests_within(nodes, columns.len())
    &&& depths_agree(nodes)
    &&& leaf_samples_right(nodes, columns, rows)
    &&& nodes.len() == 2 * leaves - 1
    &&& leaves <= 1 || leaves <= max_leaves
    &&& crate::tree::tree::deepest(nodes) <= max_depth
}

proof fn lemma_deepest_bounded<V, T>(nodes: Seq<Node<V, T>>, bound: nat)
    requires
        forall|i: int| 0 <= i < nodes.len() ==> (#[trigger] nodes[i]).depth <= bound,
    ensures
        crate::tree::tree::deepest(nodes) <= bound,
    decreases nodes.len(),
{
    if nodes.len() > 0 {
        let fewer = nodes.drop_last();
        assert forall|i: int| 0 <= i < fewer.len() implies (#[trigger] fewer[i]).depth
            <= bound by {
            assert(fewer[i] == nodes[i]);
        }
        lemma_deepest_bounded(fewer, bound);
        assert(nodes.last() == nodes[nodes.len() - 1]);
    }
}

impl<V: Number, T, F: Functions<V>, S: Fn(usize, u8) -> T> Problem<V, F, S> {
    /// What growth has come to is a grown tree.
    pub proof fn law_growth_gives_grown_tree(self, n: nat, s: Growth<V, T>)
        requires
            self.wf(),
            self.columns.len() <= usize::MAX,
            self.grows(n, s),
        ensures
            grown(
                s.nodes,
                self.columns,
                all_rows(self.num_rows).to_multiset(),
                self.max_leaves,
                self.max_depth,
            ),
    {
        self.law_growth_is_sound(n, s);
        let shape = crate::tree::tree::shape_of(s.nodes);
        let rows = all_rows(self.num_rows).to_multiset();
        let tests = route(s.nodes, self.columns);
        crate::tree::shape::lemma_downward_grounded(shape, 0);
        lemma_deepest_bounded(s.nodes, self.max_depth);
        assert forall|leaf: int|
            0 <= leaf < s.nodes.len() && (#[trigger] s.nodes[leaf]).fork() is End implies s.nodes[leaf].num_samples
            == rows.filter(
            |r: usize|
                crate::tree::shape::leaf_reached(
                    shape,
                    crate::tree::tree::row_tests(s.nodes, self.columns, r as int),
                ) == leaf,
        ).len() by {
            assert(shape[leaf] == s.nodes[leaf].fork());
            crate::tree::routing::lemma_rows_at_leaf(shape, tests, s.rows_at, rows, leaf);
            let a = |r: usize|
                crate::tree::shape::leaf_reached(
                    shape,
                    crate::tree::routing::tests_of(tests, r),
                ) == leaf;
            let b = |r: usize|
                crate::tree::shape::leaf_reached(
                    shape,
                    crate::tree::tree::row_tests(s.nodes, self.columns, r as int),
                ) == leaf;
            assert forall|r: usize| #[trigger] a(r) == b(r) by {
                assert(crate::tree::routing::tests_of(tests, r) =~= crate::tree::tree::row_tests(
                    s.nodes,
                    self.columns,
                    r as int,
                ));
            }
            assert(a =~= b);
        }
    }
}

/// The value of every leaf is minus its gradients over its regularized hessians,
/// times the learning rate.
pub open spec fn leaf_values_right<V: Number, T>(
    nodes: Seq<Node<V, T>>,
    lambda: V,
    learning_rate: V,
) -> bool {
    forall|i: int|
        0 <= i < nodes.len() ==> ((#[trigger] nodes[i]).node_type matches NodeType::Leaf { value }
            ==> value == crate::number::times(
            crate::tree::split::weight(nodes[i].sum_gradients, nodes[i].sum_hessians, lambda),
            learning_rate,
        ))
}

/// The root has the sums of all rows, and a right child has what the left one
/// leaves of the sums of their parent.
pub open spec fn sums_agree<V: Number, T>(
    nodes: Seq<Node<V, T>>,
    gradients: Seq<V>,
    hessians: Seq<V>,
) -> bool {
    &&& nodes[0].sum_gradients == crate::number::total(gradients)
    &&& nodes[0].sum_hessians == crate::number::total(hessians)
    &&& forall|i: int|
        0 <= i < nodes.len() && (#[trigger] nodes[i]).fork() is Branch ==> {
            let left = nodes[nodes[i].fork()->left];
            let right = nodes[nodes[i].fork()->right];
            &&& right.sum_gradients == crate::number::minus(
                nodes[i].sum_gradients,
                left.sum_gradients,
            )
            &&& right.sum_hessians == crate::number::minus(
                nodes[i].sum_hessians,
                left.sum_hessians,
            )
        }
}

impl<V: Number, T, F: Functions<V>, S: Fn(usize, u8) -> T> Problem<V, F, S> {
    /// The split of waiting leaf `c` was found with the sums of the leaf.
    spec fn found_with_sums(self, s: Growth<V, T>, c: Candidate<V>) -> bool {
        self.finder.finds(
            c.hist,
            crate::tree::split::looked_at(None, self.columns.len()),
            NodeTotals {
                gradient: s.nodes[c.node].sum_gradients,
                hessian: s.nodes[c.node].sum_hessians,
                count: c.rows.len() as u32,
            },
            self.functions,
            c.split,
        )
    }

    /// Values and sums are right in the tree so far, and were known when the
    /// splits of the waiting leaves were found.
    spec fn weighed(self, s: Growth<V, T>) -> bool {
        &&& leaf_values_right(s.nodes, self.finder.lambda, self.learning_rate)
        &&& sums_agree(s.nodes, self.gradients, self.hessians)
        &&& forall|j: int| 0 <= j < s.open.len() ==> self.found_with_sums(s, #[trigger] s.open[j])
    }

    /// Splitting a leaf keeps values and sums right.
    proof fn lemma_split_weighed(self, s: Growth<V, T>, i: int, t: Growth<V, T>)
        requires
            self.wf(),
            self.sound(s),
            self.weighed(s),
            0 <= i < s.open.len(),
            self.splittable(s, s.open[i]),
            s.leaves < self.max_leaves,
            self.splits(s, s.open[i], s.open.remove(i), t),
        ensures
            self.weighed(t),
    {
        let c = s.open[i];
        let rest = s.open.remove(i);
        let split = c.split->Some_0;
        let n = s.nodes.len() as int;
        assert(self.found_with_sums(s, c));
        assert(self.sound_candidate(s, c));
        self.lemma_split_tree_sound(s, c, rest, t);
        crate::tree::split::law_sides_make_up_the_node(
            &self.finder,
            c.hist,
            crate::tree::split::looked_at(None, self.columns.len()),
            NodeTotals {
                gradient: s.nodes[c.node].sum_gradients,
                hessian: s.nodes[c.node].sum_hessians,
                count: c.rows.len() as u32,
            },
            self.functions,
            split,
        );
        let v = choose|v: T|
            #[trigger] call_ensures(self.split_value, (split.feature_idx, split.bin_threshold), v)
                && t.nodes == self.nodes_after(s, c, v);
        assert forall|k: int| 0 <= k < n implies (#[trigger] t.nodes[k]).sum_gradients
            == s.nodes[k].sum_gradients && t.nodes[k].sum_hessians == s.nodes[k].sum_hessians by {}
        let shape = crate::tree::tree::shape_of(s.nodes);
        assert forall|k: int| 0 <= k < t.nodes.len() && (#[trigger] t.nodes[k]).fork() is Branch
            implies {
            let left = t.nodes[t.nodes[k].fork()->left];
            let right = t.nodes[t.nodes[k].fork()->right];
            &&& right.sum_gradients == crate::number::minus(
                t.nodes[k].sum_gradients,
                left.sum_gradients,
            )
            &&& right.sum_hessians == crate::number::minus(
                t.nodes[k].sum_hessians,
                left.sum_hessians,
            )
        } by {
            if k == c.node {
                assert(t.nodes[k].fork() == Fork::Branch { left: n, right: n + 1 });
            } else {
                assert(t.nodes[k] == s.nodes[k]);
                assert(shape[k] is Branch);
            }
        }
        assert forall|j: int| 0 <= j < rest.len() implies self.found_with_sums(
            t,
            #[trigger] rest[j],
        ) by {
            let o: int = if j < i {
                j
            } else {
                j + 1
            };
            assert(rest[j] == s.open[o]);
            assert(self.sound_candidate(s, s.open[o]));
            assert(self.found_with_sums(s, s.open[o]));
        }
        if t.leaves < self.max_leaves {
            let (small, large) = choose|small: Candidate<V>, large: Candidate<V>|
                #[trigger] self.children_wait(s, c, small, large) && t.open == rest.push(
                    small,
                ).push(large);
            assert(self.found_with_sums(t, small));
            assert(self.found_with_sums(t, large));
            assert forall|j: int| 0 <= j < t.open.len() implies self.found_with_sums(
                t,
                #[trigger] t.open[j],
            ) by {
                if j < rest.len() {
                    assert(t.open[j] == rest[j]);
                }
            }
        }
    }

    /// In what growth has come to, the value of every leaf is minus its
    /// gradients over its regularized hessians, times the learning rate; the
    /// root has the sums of all rows, and two children make up the sums of
    /// their parent.
    pub proof fn law_growth_weighs_leaves(self, n: nat, s: Growth<V, T>)
        requires
            self.wf(),
            self.columns.len() <= usize::MAX,
            self.grows(n, s),
        ensures
            leaf_values_right(s.nodes, self.finder.lambda, self.learning_rate),
            sums_agree(s.nodes, self.gradients, self.hessians),
    {
        self.lemma_growth_weighed(n, s);
    }

    proof fn lemma_growth_weighed(self, n: nat, s: Growth<V, T>)
        requires
            self.wf(),
            self.columns.len() <= usize::MAX,
            self.grows(n, s),
        ensures
            self.weighed(s),
        decreases n,
    {
        if n > 0 {
            let (before, i) = choose|before: Growth<V, T>, i: int|
                self.grows((n - 1) as nat, before) && #[trigger] self.steps(before, i, s);
            self.lemma_growth_weighed((n - 1) as nat, before);
            self.law_growth_is_sound((n - 1) as nat, before);
            if self.splittable(before, before.open[i]) {
                self.lemma_split_weighed(before, i, s);
            } else {
                assert forall|j: int| 0 <= j < s.open.len() implies self.found_with_sums(
                    s,
                    #[trigger] s.open[j],
                ) by {
                    let o: int = if j < i {
                        j
                    } else {
                        j + 1
                    };
                    assert(s.open[j] == before.open[o]);
                    assert(self.found_with_sums(before, before.open[o]));
                }
            }
        }
    }
}

impl<V: Number, T, F: Functions<V>, S: Fn(usize, u8) -> T> Problem<V, F, S> {
    /// In every turn the leaf that is taken has the split with the greatest gain
    /// of all that wait; a leaf without a split is taken only when no leaf that
    /// waits has one. The leaf is split exactly if it has a split and is above
    /// the greatest depth.
    pub proof fn law_turn_takes_the_greatest_gain(
        self,
        n: nat,
        s: Growth<V, T>,
        i: int,
        t: Growth<V, T>,
    )
        requires
            self.wf(),
            self.columns.len() <= usize::MAX,
            self.grows(n, s),
            self.steps(s, i, t),
        ensures
            0 <= i < s.open.len(),
            forall|j: int|
                0 <= j < s.open.len() && (#[trigger] s.open[j]).split is Some ==> {
                    &&& s.open[i].split is Some
                    &&& !crate::number::above(
                        s.open[j].split->Some_0.gain,
                        s.open[i].split->Some_0.gain,
                    )
                },
            s.open[i].split is Some && s.nodes[s.open[i].node].depth < self.max_depth ==> {
                &&& t.nodes.len() == s.nodes.len() + 2
                &&& t.nodes[s.open[i].node].node_type matches NodeType::Internal {
                    feature_idx,
                    bin_threshold,
                    left_child,
                    right_child,
                    ..
                }
                &&& feature_idx == s.open[i].split->Some_0.feature_idx
                &&& bin_threshold == s.open[i].split->Some_0.bin_threshold
                &&& left_child == s.nodes.len()
                &&& right_child == s.nodes.len() + 1
            },
            s.open[i].split is None || s.nodes[s.open[i].node].depth >= self.max_depth ==> t.nodes
                == s.nodes,
    {
        self.lemma_growth_weighed(n, s);
        self.law_growth_is_sound(n, s);
        let c = s.open[i];
        assert(self.sound_candidate(s, c));
        assert forall|j: int| 0 <= j < s.open.len() && (#[trigger] s.open[j]).split is Some implies {
            &&& s.open[j].split->Some_0.valid()
            &&& s.open[i].split is Some
            &&& !crate::number::above(s.open[j].split->Some_0.gain, s.open[i].split->Some_0.gain)
        } by {
            let d = s.open[j];
            assert(self.found_with_sums(s, d));
            crate::tree::split::lemma_found_on_feature(
                &self.finder,
                d.hist,
                crate::tree::split::looked_at(None, self.columns.len()),
                NodeTotals {
                    gradient: s.nodes[d.node].sum_gradients,
                    hessian: s.nodes[d.node].sum_hessians,
                    count: d.rows.len() as u32,
                },
                self.functions,
                d.split->Some_0,
            );
            assert(!crate::number::above(d.gain(), c.gain()));
        }
        if c.split is Some && s.nodes[c.node].depth < self.max_depth {
            let split = c.split->Some_0;
            assert(self.splittable(s, c));
            let v = choose|v: T|
                #[trigger] call_ensures(
                    self.split_value,
                    (split.feature_idx, split.bin_threshold),
                    v,
                ) && t.nodes == self.nodes_after(s, c, v);
            assert(t.nodes[c.node].node_type is Internal);
        }
    }

    /// A leaf has been looked at and stays a leaf: it is as deep as may be, or no
    /// split was found for its rows.
    pub open spec fn refused(self, s: Growth<V, T>, k: int) -> bool {
        s.nodes[k].depth >= self.max_depth || exists|c: Candidate<V>|
            {
                &&& #[trigger] self.waits(
                    c,
                    k,
                    c.rows,
                    s.nodes[k].sum_gradients,
                    s.nodes[k].sum_hessians,
                )
                &&& c.rows.to_multiset() == s.rows_at[k]
                &&& crate::tree::histogram::count_rows(c.hist, self.columns, c.rows)
                &&& c.split is None
            }
    }

    /// Growth leaves no leaf out: while there may be more leaves, each leaf waits,
    /// or has been looked at and stays a leaf.
    pub proof fn law_growth_leaves_none_out(self, n: nat, s: Growth<V, T>, k: int)
        requires
            self.wf(),
            self.columns.len() <= usize::MAX,
            self.grows(n, s),
            s.leaves < self.max_leaves,
            0 <= k < s.nodes.len(),
            s.nodes[k].fork() is End,
        ensures
            (exists|j: int| 0 <= j < s.open.len() && (#[trigger] s.open[j]).node == k)
                || self.refused(s, k),
        decreases n,
    {
        if n == 0 {
            assert(s.open[0].node == 0);
        } else {
            let (before, i) = choose|before: Growth<V, T>, i: int|
                self.grows((n - 1) as nat, before) && #[trigger] self.steps(before, i, s);
            self.law_growth_is_sound((n - 1) as nat, before);
            self.lemma_growth_weighed((n - 1) as nat, before);
            self.law_turn_takes_the_greatest_gain((n - 1) as nat, before, i, s);
            let c = before.open[i];
            let rest = before.open.remove(i);
            assert(self.sound_candidate(before, c));
            assert(self.found_with_sums(before, c));
            let size = before.nodes.len() as int;
            if self.splittable(before, c) {
                self.lemma_split_tree_sound(before, c, rest, s);
                let (small, large) = choose|small: Candidate<V>, large: Candidate<V>|
                    #[trigger] self.children_wait(before, c, small, large) && s.open == rest.push(
                        small,
                    ).push(large);
                let m = rest.len() as int;
                assert(s.open[m] == small && s.open[m + 1] == large);
                let split = c.split->Some_0;
                let v = choose|v: T|
                    #[trigger] call_ensures(
                        self.split_value,
                        (split.feature_idx, split.bin_threshold),
                        v,
                    ) && s.nodes == self.nodes_after(before, c, v);
                assert(s.nodes[c.node].fork() is Branch);
            }
            if k < size && k != c.node {
                assert(s.nodes[k] == before.nodes[k]);
                assert(s.rows_at[k] == before.rows_at[k]);
                self.law_growth_leaves_none_out((n - 1) as nat, before, k);
                if exists|j: int|
                    0 <= j < before.open.len() && (#[trigger] before.open[j]).node == k {
                    let j = choose|j: int|
                        0 <= j < before.open.len() && (#[trigger] before.open[j]).node == k;
                    let o: int = if j < i {
                        j
                    } else {
                        j - 1
                    };
                    assert(rest[o] == before.open[j]);
                    assert(s.open[o] == before.open[j]);
                } else {
                    assert(self.refused(before, k));
                    if before.nodes[k].depth < self.max_depth {
                        let d = choose|d: Candidate<V>|
                            {
                                &&& #[trigger] self.waits(
                                    d,
                                    k,
                                    d.rows,
                                    before.nodes[k].sum_gradients,
                                    before.nodes[k].sum_hessians,
                                )
                                &&& d.rows.to_multiset() == before.rows_at[k]
                                &&& crate::tree::histogram::count_rows(
                                    d.hist,
                                    self.columns,
                                    d.rows,
                                )
                                &&& d.split is None
                            };
                        assert(self.waits(
                            d,
                            k,
                            d.rows,
                            s.nodes[k].sum_gradients,
                            s.nodes[k].sum_hessians,
                        ));
                    }
                }
            } else if k == c.node {
                assert(!self.splittable(before, c));
                if before.nodes[k].depth < self.max_depth {
                    assert(c.split is None);
                    assert(self.waits(
                        c,
                        k,
                        c.rows,
                        s.nodes[k].sum_gradients,
                        s.nodes[k].sum_hessians,
                    ));
                }
            }
        }
    }
}

/// A leaf that waits to be split.
struct SplitCandidate<V> {
    node_idx: usize,
    row_indices: Vec<usize>,
    histograms: NodeHistograms<V>,
    split_info: Option<SplitInfo<V>>,
}

impl<V: Number> SplitCandidate<V> {
    spec fn model(self) -> Candidate<V> {
        Candidate {
            node: self.node_idx as int,
            rows: self.row_indices@,
            hist: self.histograms@,
            split: self.split_info,
        }
    }

    /// What the best split gains.
    fn gain(&self) -> (r: V)
        requires
            crate::number::arithmetic::<V>(),
        ensures
            r == self.model().gain(),
    {
        match &self.split_info {
            Some(s) => s.gain,
            None => lowest_number(),
        }
    }
}

spec fn models<V: Number>(open: Seq<SplitCandidate<V>>) -> Seq<Candidate<V>> {
    Seq::new(open.len(), |i: int| open[i].model())
}

/// Takes the leaf whose split gains most out of those that wait.
fn take_best<V: Number>(open: &mut Vec<SplitCandidate<V>>) -> (r: (SplitCandidate<V>, Ghost<int>))
    requires
        crate::number::arithmetic::<V>(),
        crate::number::ordered::<V>(),
        old(open).len() > 0,
    ensures
        gains_most(models(old(open)@), r.1@),
        r.0.model() == models(old(open)@)[r.1@],
        models(final(open)@) == models(old(open)@).remove(r.1@),
        final(open).len() == old(open).len() - 1,
{
    let ghost all = models(open@);
    let mut best: usize = 0;
    let mut j: usize = 1;
    while j < open.len()
        invariant
            crate::number::arithmetic::<V>(),
            crate::number::ordered::<V>(),
            all == models(open@),
            best < j <= open.len(),
            forall|k: int|
                0 <= k < j ==> !crate::number::above((#[trigger] all[k]).gain(), all[best as int].gain()),
        decreases open.len() - j,
    {
        let challenger = open[j].gain();
        let leader = open[best].gain();
        assert(all[j as int] == open[j as int].model() && all[best as int]
            == open[best as int].model());
        if challenger > leader {
            assert(crate::number::above(all[j as int].gain(), all[best as int].gain()));
            assert forall|k: int| 0 <= k < j + 1 implies !crate::number::above(
                (#[trigger] all[k]).gain(),
                all[j as int].gain(),
            ) by {
                if k < j && crate::number::above(all[k].gain(), all[j as int].gain()) {
                    assert(crate::number::above(all[k].gain(), all[best as int].gain()));
                }
            }
            best = j;
        }
        j = j + 1;
    }
    let ghost before = open@;
    let c = open.remove(best);
    assert(models(open@) =~= all.remove(best as int));
    (c, Ghost(best as int))
}

impl<V: Number> TreeGrower<V> {
    /// The usual settings.
    pub fn new() -> (r: Self)
        requires
            crate::number::arithmetic::<V>(),
        ensures
            r == (TreeGrower {
                max_depth: 6,
                max_leaves: 31,
                lambda: crate::number::small::<V>(1),
                min_samples_leaf: 1,
                min_hessian_leaf: crate::number::small::<V>(1),
                entropy_weight: crate::number::small::<V>(0),
                min_gain: crate::number::small::<V>(0),
                learning_rate: crate::number::over(
                    crate::number::small::<V>(1),
                    crate::number::small::<V>(10),
                ),
            }),
    {
        let one: V = V::from(1u8);
        let ten: V = V::from(10u8);
        TreeGrower {
            max_depth: 6,
            max_leaves: 31,
            lambda: one,
            min_samples_leaf: 1,
            min_hessian_leaf: one,
            entropy_weight: V::from(0u8),
            min_gain: V::from(0u8),
            learning_rate: one / ten,
        }
    }

    /// Sets the greatest depth of a node.
    pub fn with_max_depth(self, max_depth: usize) -> (r: Self)
        ensures
            r == (TreeGrower { max_depth, ..self }),
    {
        TreeGrower { max_depth, ..self }
    }

    /// Sets the greatest number of leaves.
    pub fn with_max_leaves(self, max_leaves: usize) -> (r: Self)
        ensures
            r == (TreeGrower { max_leaves, ..self }),
    {
        TreeGrower { max_leaves, ..self }
    }

    /// Sets the L2 regularization.
    pub fn with_lambda(self, lambda: V) -> (r: Self)
        ensures
            r == (TreeGrower { lambda, ..self }),
    {
        TreeGrower { lambda, ..self }
    }

    /// Sets the least number of rows of a leaf.
    pub fn with_min_samples_leaf(self, min_samples: usize) -> (r: Self)
        ensures
            r == (TreeGrower { min_samples_leaf: min_samples, ..self }),
    {
        TreeGrower { min_samples_leaf: min_samples, ..self }
    }

    /// Sets the least sum of hessians of a leaf.
    pub fn with_min_hessian_leaf(self, min_hessian: V) -> (r: Self)
        ensures
            r == (TreeGrower { min_hessian_leaf: min_hessian, ..self }),
    {
        TreeGrower { min_hessian_leaf: min_hessian, ..self }
    }

    /// Sets the weight of the entropy of a split.
    pub fn with_entropy_weight(self, weight: V) -> (r: Self)
        ensures
            r == (TreeGrower { entropy_weight: weight, ..self }),
    {
        TreeGrower { entropy_weight: weight, ..self }
    }

    /// Sets the least gain of a split.
    pub fn with_min_gain(self, min_gain: V) -> (r: Self)
        ensures
            r == (TreeGrower { min_gain, ..self }),
    {
        TreeGrower { min_gain, ..self }
    }

    /// Sets the factor by which the values of leaves are shrunk.
    pub fn with_learning_rate(self, lr: V) -> (r: Self)
        ensures
            r == (TreeGrower { learning_rate: lr, ..self }),
    {
        TreeGrower { learning_rate: lr, ..self }
    }

    /// `p` is what this grower makes of the given data.
    pub open spec fn poses<F, S>(
        &self,
        p: Problem<V, F, S>,
        dataset: &BinnedDataset,
        gradients: Seq<V>,
        hessians: Seq<V>,
        functions: F,
        split_value: S,
    ) -> bool {
        &&& self.configures(&p.finder)
        &&& p.max_depth == self.max_depth
        &&& p.max_leaves == self.max_leaves
        &&& p.learning_rate == self.learning_rate
        &&& p.num_rows == dataset.rows()
        &&& p.columns == dataset@
        &&& p.gradients == gradients
        &&& p.hessians == hessians
        &&& p.functions == functions
        &&& p.split_value == split_value
    }

    /// The finder has the settings of this grower and no constraints.
    pub open spec fn configures(&self, finder: &SplitFinder<V>) -> bool {
        &&& finder.lambda == self.lambda
        &&& finder.min_samples_leaf == self.min_samples_leaf
        &&& finder.min_hessian_leaf == self.min_hessian_leaf
        &&& finder.entropy_weight == self.entropy_weight
        &&& finder.min_gain == self.min_gain
        &&& finder.monotonic_constraints@.len() == 0
    }

    /// The split finder with the settings of this grower.
    pub fn create_split_finder(&self) -> (r: SplitFinder<V>)
        requires
            crate::number::arithmetic::<V>(),
        ensures
            self.configures(&r),
    {
        SplitFinder::new().with_lambda(self.lambda).with_min_samples_leaf(
            self.min_samples_leaf,
        ).with_min_hessian_leaf(self.min_hessian_leaf).with_entropy_weight(
            self.entropy_weight,
        ).with_min_gain(self.min_gain)
    }

    /// The rows that a test leads to the left and to the right, in their order.
    pub fn partition_rows(
        &self,
        dataset: &BinnedDataset,
        row_indices: &[usize],
        feature_idx: usize,
        bin_threshold: u8,
    ) -> (r: (Vec<usize>, Vec<usize>))
        requires
            feature_idx < dataset@.len(),
            forall|i: int|
                0 <= i < row_indices.len() ==> (#[trigger] row_indices[i]) < dataset.rows(),
        ensures
            r.0@ == rows_left(dataset@[feature_idx as int], row_indices@, bin_threshold),
            r.1@ == rows_right(dataset@[feature_idx as int], row_indices@, bin_threshold),
    {
        let ghost column = dataset@[feature_idx as int];
        let ghost keep_l = |r: usize| column[r as int] <= bin_threshold;
        let ghost keep_r = |r: usize| !(column[r as int] <= bin_threshold);
        let mut left: Vec<usize> = Vec::new();
        let mut right: Vec<usize> = Vec::new();
        let mut i: usize = 0;
        proof {
            reveal(Seq::filter);
            assert(row_indices@.take(0).filter(keep_l) =~= Seq::<usize>::empty());
            assert(row_indices@.take(0).filter(keep_r) =~= Seq::<usize>::empty());
        }
        while i < row_indices.len()
            invariant
                i <= row_indices.len(),
                feature_idx < dataset@.len(),
                column == dataset@[feature_idx as int],
                keep_l == (|r: usize| column[r as int] <= bin_threshold),
                keep_r == (|r: usize| !(column[r as int] <= bin_threshold)),
                forall|i: int|
                    0 <= i < row_indices.len() ==> (#[trigger] row_indices[i]) < dataset.rows(),
                left@ == row_indices@.take(i as int).filter(keep_l),
                right@ == row_indices@.take(i as int).filter(keep_r),
            decreases row_indices.len() - i,
        {
            let row_idx: usize = row_indices[i];
            proof {
                reveal(Seq::filter);
                assert(row_indices@.take(i + 1).drop_last() =~= row_indices@.take(i as int));
                assert(row_indices@.take(i + 1).last() == row_idx);
            }
            let bin: u8 = dataset.get_bin(row_idx, feature_idx);
            if bin <= bin_threshold {
                left.push(row_idx);
            } else {
                right.push(row_idx);
            }
            i = i + 1;
        }
        assert(row_indices@.take(i as int) =~= row_indices@);
        (left, right)
    }

    /// A leaf with the given sums.
    fn leaf_node<T: Copy>(
        &self,
        gradient: V,
        hessian: V,
        depth: usize,
        num_samples: usize,
    ) -> (r: Node<V, T>)
        requires
            crate::number::arithmetic::<V>(),
        ensures
            r == (Node {
                node_type: NodeType::<V, T>::Leaf {
                    value: crate::number::times(
                        crate::tree::split::weight(gradient, hessian, self.lambda),
                        self.learning_rate,
                    ),
                },
                depth,
                num_samples,
                sum_gradients: gradient,
                sum_hessians: hessian,
            }),
    {
        let weight = leaf_weight(gradient, hessian, self.lambda);
        Node::leaf(weight * self.learning_rate, depth, num_samples, gradient, hessian)
    }

    /// Grows a tree, best split first. `split_value` gives the value at which a
    /// split of a feature after a bin divides.
    pub fn grow<T: Copy, F: Functions<V>, S: Fn(usize, u8) -> T>(
        &self,
        dataset: &BinnedDataset,
        gradients: &[V],
        hessians: &[V],
        functions: &F,
        split_value: &S,
    ) -> (r: Tree<V, T>)
        requires
            crate::number::arithmetic::<V>(),
            crate::number::ordered::<V>(),
            dataset.rows() <= u32::MAX,
            gradients.len() == dataset.rows(),
            hessians.len() == dataset.rows(),
            crate::functions::computes(functions),
            forall|f: usize, b: u8| #[trigger] call_requires(*split_value, (f, b)),
        ensures
            grown(
                r@,
                dataset@,
                all_rows(dataset.rows()).to_multiset(),
                self.max_leaves as nat,
                self.max_depth as nat,
            ),
            leaf_values_right(r@, self.lambda, self.learning_rate),
            sums_agree(r@, gradients@, hessians@),
            exists|p: Problem<V, F, S>, n: nat, s: Growth<V, T>|
                {
                    &&& self.poses(
                        p,
                        dataset,
                        gradients@,
                        hessians@,
                        *functions,
                        *split_value,
                    )
                    &&& #[trigger] p.grows(n, s)
                    &&& p.ends(s)
                    &&& r@ == s.nodes
                },
    {
        let num_rows: usize = dataset.num_rows();
        let num_features: usize = dataset.num_features();
        let finder = self.create_split_finder();
        let total_gradient = sum(gradients);
        let total_hessian = sum(hessians);
        let root = self.leaf_node::<T>(total_gradient, total_hessian, 0, num_rows);
        let mut nodes: Vec<Node<V, T>> = Vec::new();
        nodes.push(root);
        let mut rows: Vec<usize> = Vec::new();
        let mut filled: usize = 0;
        while filled < num_rows
            invariant
                filled <= num_rows,
                rows@ == all_rows(filled as nat),
            decreases num_rows - filled,
        {
            rows.push(filled);
            filled = filled + 1;
            assert(rows@ =~= all_rows(filled as nat));
        }
        let ghost p = Problem::<V, F, S> {
            finder,
            max_depth: self.max_depth as nat,
            max_leaves: self.max_leaves as nat,
            learning_rate: self.learning_rate,
            num_rows: num_rows as nat,
            columns: dataset@,
            gradients: gradients@,
            hessians: hessians@,
            functions: *functions,
            split_value: *split_value,
        };
        let histograms = NodeHistograms::build(dataset, rows.as_slice(), gradients, hessians);
        proof {
            lemma_counted_fits(&histograms, dataset@, rows@);
        }
        let split = finder.find_best_split(
            &histograms,
            total_gradient,
            total_hessian,
            num_rows as u32,
            functions,
        );
        let mut open: Vec<SplitCandidate<V>> = Vec::new();
        open.push(
            SplitCandidate { node_idx: 0, row_indices: rows, histograms, split_info: split },
        );
        let mut num_leaves: usize = 1;
        let ghost mut turns: nat = 0;
        let ghost mut s: Growth<V, T> = Growth {
            nodes: nodes@,
            rows_at: seq![all_rows(num_rows as nat).to_multiset()],
            open: models(open@),
            leaves: 1,
        };
        proof {
            assert(nodes@ =~= seq![p.leaf(total_gradient, total_hessian, 0, num_rows as nat)]);
            assert(p.begins(s));
            assert(p.grows(turns, s));
        }
        while open.len() > 0 && num_leaves < self.max_leaves
            invariant
                crate::number::arithmetic::<V>(),
                crate::number::ordered::<V>(),
                dataset.rows() <= u32::MAX,
                dataset.rectangular(),
                num_features == dataset@.len(),
                gradients.len() == dataset.rows(),
                hessians.len() == dataset.rows(),
                crate::functions::computes(functions),
                forall|f: usize, b: u8| #[trigger] call_requires(*split_value, (f, b)),
                self.poses(p, dataset, gradients@, hessians@, *functions, *split_value),
                p.finder == finder,
                p.wf(),
                p.grows(turns, s),
                s.nodes == nodes@,
                s.open == models(open@),
                s.leaves == num_leaves,
            decreases 2 * (self.max_leaves - num_leaves) + open.len(),
        {
            let ghost before = s;
            proof {
                p.law_growth_is_sound(turns, s);
            }
            let (c, Ghost(i)) = take_best(&mut open);
            assert(p.sound_candidate(s, s.open[i]));
            let ghost m = c.model();
            assert(models(open@) == s.open.remove(i));
            let splittable: bool = match &c.split_info {
                Some(info) => info.is_valid() && nodes[c.node_idx].depth < self.max_depth,
                None => false,
            };
            if !splittable {
                proof {
                    s = Growth { open: models(open@), ..before };
                    assert(p.steps(before, i, s));
                    assert(p.grows((turns + 1) as nat, s));
                    turns = turns + 1;
                }
            } else if let Some(split_info) = c.split_info {
                let feature_idx: usize = split_info.feature_idx;
                let threshold: u8 = split_info.bin_threshold;
                let (left_rows, right_rows) = self.partition_rows(
                    dataset,
                    c.row_indices.as_slice(),
                    feature_idx,
                    threshold,
                );
                let ghost column = dataset@[feature_idx as int];
                proof {
                    lemma_filter_part(
                        m.rows,
                        |r: usize| column[r as int] <= threshold,
                        p.num_rows,
                    );
                    lemma_filter_part(
                        m.rows,
                        |r: usize| !(column[r as int] <= threshold),
                        p.num_rows,
                    );
                }
                let parent = nodes[c.node_idx];
                let child_depth: usize = parent.depth + 1;
                let left_idx: usize = nodes.len();
                nodes.push(
                    self.leaf_node(
                        split_info.left_gradient,
                        split_info.left_hessian,
                        child_depth,
                        left_rows.len(),
                    ),
                );
                let right_idx: usize = nodes.len();
                nodes.push(
                    self.leaf_node(
                        split_info.right_gradient,
                        split_info.right_hessian,
                        child_depth,
                        right_rows.len(),
                    ),
                );
                let value: T = split_value(feature_idx, threshold);
                nodes.set(
                    c.node_idx,
                    Node {
                        node_type: NodeType::Internal {
                            feature_idx,
                            bin_threshold: threshold,
                            split_value: value,
                            left_child: left_idx,
                            right_child: right_idx,
                        },
                        depth: parent.depth,
                        num_samples: parent.num_samples,
                        sum_gradients: parent.sum_gradients,
                        sum_hessians: parent.sum_hessians,
                    },
                );
                num_leaves = num_leaves + 1;
                let ghost rest = models(open@);
                proof {
                    assert(nodes@ =~= p.nodes_after(before, m, value));
                    s =
                    Growth {
                        nodes: nodes@,
                        rows_at: before.rows_at.push(left_rows@.to_multiset()).push(
                            right_rows@.to_multiset(),
                        ),
                        open: rest,
                        leaves: num_leaves as nat,
                    };
                }
                if num_leaves < self.max_leaves {
                    let left_is_small: bool = left_rows.len() <= right_rows.len();
                    let ghost left_view = left_rows@;
                    let ghost right_view = right_rows@;
                    let (small_rows, large_rows) = if left_is_small {
                        (left_rows, right_rows)
                    } else {
                        (right_rows, left_rows)
                    };
                    let small_histograms = NodeHistograms::build(
                        dataset,
                        small_rows.as_slice(),
                        gradients,
                        hessians,
                    );
                    proof {
                        lemma_small_counts(
                            c.histograms@,
                            small_histograms@,
                            dataset@,
                            m.rows,
                            column,
                            threshold,
                            left_is_small,
                        );
                        lemma_counted_wf(&c.histograms, dataset@, m.rows);
                    }
                    let large_histograms = NodeHistograms::build_sibling(
                        &c.histograms,
                        &small_histograms,
                    );
                    proof {
                        lemma_large_counts(
                            large_histograms@,
                            c.histograms@,
                            small_histograms@,
                            dataset@,
                            m.rows,
                            column,
                            threshold,
                            left_is_small,
                        );
                        lemma_counted_fits(&small_histograms, dataset@, small_rows@);
                        lemma_counted_fits(&large_histograms, dataset@, large_rows@);
                    }
                    let (small_g, small_h, large_g, large_h) = if left_is_small {
                        (
                            split_info.left_gradient,
                            split_info.left_hessian,
                            split_info.right_gradient,
                            split_info.right_hessian,
                        )
                    } else {
                        (
                            split_info.right_gradient,
                            split_info.right_hessian,
                            split_info.left_gradient,
                            split_info.left_hessian,
                        )
                    };
                    let small_split = finder.find_best_split(
                        &small_histograms,
                        small_g,
                        small_h,
                        small_rows.len() as u32,
                        functions,
                    );
                    let large_split = finder.find_best_split(
                        &large_histograms,
                        large_g,
                        large_h,
                        large_rows.len() as u32,
                        functions,
                    );
                    let (small_idx, large_idx): (usize, usize) = if left_is_small {
                        (left_idx, right_idx)
                    } else {
                        (right_idx, left_idx)
                    };
                    let small = SplitCandidate {
                        node_idx: small_idx,
                        row_indices: small_rows,
                        histograms: small_histograms,
                        split_info: small_split,
                    };
                    let large = SplitCandidate {
                        node_idx: large_idx,
                        row_indices: large_rows,
                        histograms: large_histograms,
                        split_info: large_split,
                    };
                    let ghost small_model = small.model();
                    let ghost large_model = large.model();
                    open.push(small);
                    open.push(large);
                    proof {
                        assert(models(open@) =~= rest.push(small_model).push(large_model));
                        assert(p.children_wait(before, m, small_model, large_model));
                        s = Growth { open: models(open@), ..s };
                    }
                }
                proof {
                    assert(p.splits(before, m, rest, s));
                    assert(p.steps(before, i, s));
                    assert(p.grows((turns + 1) as nat, s));
                    turns = turns + 1;
                }
            }
        }
        proof {
            p.law_growth_gives_grown_tree(turns, s);
            p.law_growth_weighs_leaves(turns, s);
        }
        Tree::from_nodes(nodes)
    }
}

/// Histograms that count rows have an entry for each bin.
proof fn lemma_counted_wf<V: Number>(
    h: &NodeHistograms<V>,
    columns: Seq<Seq<u8>>,
    rows: Seq<usize>,
)
    requires
        crate::tree::histogram::count_rows(h@, columns, rows),
    ensures
        h.wf(),
{
    assert forall|f: int| 0 <= f < h@.len() implies (#[trigger] h@[f]).len() == NUM_BINS by {
        assert(crate::tree::histogram::counts_rows(h@[f], columns[f], rows));
    }
}

/// Histograms that count rows count no more than there are.
proof fn lemma_counted_fits<V: Number>(
    h: &NodeHistograms<V>,
    columns: Seq<Seq<u8>>,
    rows: Seq<usize>,
)
    requires
        crate::tree::histogram::count_rows(h@, columns, rows),
        rows.len() <= u32::MAX,
    ensures
        h.fits(rows.len() as u32),
{
    assert forall|f: int| 0 <= f < h@.len() implies crate::tree::histogram::count_below(
        #[trigger] h@[f],
        NUM_BINS as int,
    ) <= rows.len() by {
        assert(crate::tree::histogram::counts_rows(h@[f], columns[f], rows));
        crate::tree::histogram::lemma_count_below(h@[f], columns[f], rows, NUM_BINS as int);
        crate::tree::histogram::lemma_rows_below_ends(columns[f], rows, NUM_BINS as int);
    }
}

/// The rows on one side of a test.
spec fn rows_on(column: Seq<u8>, rows: Seq<usize>, threshold: u8, left: bool) -> Seq<usize> {
    if left {
        rows_left(column, rows, threshold)
    } else {
        rows_right(column, rows, threshold)
    }
}

/// A child counts no more rows in a bin than its parent.
proof fn lemma_small_counts<V: Number>(
    parent: Seq<Seq<BinEntry<V>>>,
    small: Seq<Seq<BinEntry<V>>>,
    columns: Seq<Seq<u8>>,
    rows: Seq<usize>,
    column: Seq<u8>,
    threshold: u8,
    left: bool,
)
    requires
        crate::tree::histogram::count_rows(parent, columns, rows),
        crate::tree::histogram::count_rows(
            small,
            columns,
            rows_on(column, rows, threshold, left),
        ),
    ensures
        forall|f: int, b: int|
            0 <= f < parent.len() && 0 <= b < NUM_BINS ==> (#[trigger] small[f][b]).count
                <= parent[f][b].count,
{
    let keep_l = |r: usize| column[r as int] <= threshold;
    let keep_r = |r: usize| !(column[r as int] <= threshold);
    assert forall|f: int, b: int| 0 <= f < parent.len() && 0 <= b < NUM_BINS implies (
    #[trigger] small[f][b]).count <= parent[f][b].count by {
        assert(crate::tree::histogram::counts_rows(parent[f], columns[f], rows));
        assert(crate::tree::histogram::counts_rows(
            small[f],
            columns[f],
            rows_on(column, rows, threshold, left),
        ));
        crate::tree::histogram::lemma_bin_count_divides(columns[f], rows, keep_l, keep_r, b);
        assert(parent[f][b].count == crate::tree::histogram::bin_count(columns[f], rows, b));
    }
}

/// What remains counts the rows on the other side.
proof fn lemma_large_counts<V: Number>(
    large: Seq<Seq<BinEntry<V>>>,
    parent: Seq<Seq<BinEntry<V>>>,
    small: Seq<Seq<BinEntry<V>>>,
    columns: Seq<Seq<u8>>,
    rows: Seq<usize>,
    column: Seq<u8>,
    threshold: u8,
    left: bool,
)
    requires
        crate::tree::histogram::are_differences(large, parent, small),
        crate::tree::histogram::count_rows(parent, columns, rows),
        crate::tree::histogram::count_rows(
            small,
            columns,
            rows_on(column, rows, threshold, left),
        ),
    ensures
        crate::tree::histogram::count_rows(
            large,
            columns,
            rows_on(column, rows, threshold, !left),
        ),
{
    let keep_l = |r: usize| column[r as int] <= threshold;
    let keep_r = |r: usize| !(column[r as int] <= threshold);
    assert forall|f: int| 0 <= f < large.len() implies crate::tree::histogram::counts_rows(
        #[trigger] large[f],
        columns[f],
        rows_on(column, rows, threshold, !left),
    ) by {
        assert(crate::tree::histogram::counts_rows(parent[f], columns[f], rows));
        assert(crate::tree::histogram::counts_rows(
            small[f],
            columns[f],
            rows_on(column, rows, threshold, left),
        ));
        if left {
            crate::tree::histogram::lemma_difference_counts(
                large[f],
                parent[f],
                small[f],
                columns[f],
                rows,
                keep_l,
                keep_r,
            );
        } else {
            crate::tree::histogram::lemma_difference_counts(
                large[f],
                parent[f],
                small[f],
                columns[f],
                rows,
                keep_r,
                keep_l,
            );
        }
    }
}

impl<V: Number, T, F: Functions<V>, S: Fn(usize, u8) -> T> Problem<V, F, S> {
    /// The sums are those of `rows`.
    pub open spec fn weighed_by(
        self,
        worth: spec_fn(V) -> real,
        gradient: V,
        hessian: V,
        rows: Seq<usize>,
    ) -> bool {
        &&& worth(gradient) == worth(crate::tree::histogram::row_sum(self.gradients, rows))
        &&& worth(hessian) == worth(crate::tree::histogram::row_sum(self.hessians, rows))
    }

    /// The sums of node `k` are those of the rows at the node.
    pub open spec fn sums_of_rows(
        self,
        worth: spec_fn(V) -> real,
        s: Growth<V, T>,
        k: int,
    ) -> bool {
        exists|rows: Seq<usize>|
            rows.to_multiset() == s.rows_at[k] && #[trigger] self.weighed_by(
                worth,
                s.nodes[k].sum_gradients,
                s.nodes[k].sum_hessians,
                rows,
            )
    }

    spec fn summed_candidate(
        self,
        worth: spec_fn(V) -> real,
        s: Growth<V, T>,
        c: Candidate<V>,
    ) -> bool {
        &&& self.weighed_by(
            worth,
            s.nodes[c.node].sum_gradients,
            s.nodes[c.node].sum_hessians,
            c.rows,
        )
        &&& self.hist_sums(worth, c.hist, c.rows)
    }

    spec fn hist_sums(
        self,
        worth: spec_fn(V) -> real,
        hist: Seq<Seq<BinEntry<V>>>,
        rows: Seq<usize>,
    ) -> bool {
        forall|f: int|
            0 <= f < self.columns.len() ==> crate::tree::histogram::sums_rows(
                worth,
                #[trigger] hist[f],
                self.columns[f],
                self.gradients,
                self.hessians,
                rows,
            )
    }

    spec fn summed(self, worth: spec_fn(V) -> real, s: Growth<V, T>) -> bool {
        &&& forall|k: int| 0 <= k < s.nodes.len() ==> #[trigger] self.sums_of_rows(worth, s, k)
        &&& forall|j: int|
            0 <= j < s.open.len() ==> self.summed_candidate(worth, s, #[trigger] s.open[j])
    }

    proof fn lemma_histograms_sum(
        self,
        worth: spec_fn(V) -> real,
        hist: Seq<Seq<BinEntry<V>>>,
        rows: Seq<usize>,
    )
        requires
            crate::tree::histogram::are_histograms(
                hist,
                self.columns,
                self.gradients,
                self.hessians,
                rows,
            ),
        ensures
            self.hist_sums(worth, hist, rows),
    {
        assert forall|f: int| 0 <= f < self.columns.len() implies crate::tree::histogram::sums_rows(
            worth,
            #[trigger] hist[f],
            self.columns[f],
            self.gradients,
            self.hessians,
            rows,
        ) by {
            assert(crate::tree::histogram::is_histogram(
                hist[f],
                self.columns[f],
                self.gradients,
                self.hessians,
                rows,
            ));
        }
    }

    /// The histograms that remain are those of the rows that remain.
    proof fn lemma_differences_sum(
        self,
        worth: spec_fn(V) -> real,
        rest: Seq<Seq<BinEntry<V>>>,
        all: Seq<Seq<BinEntry<V>>>,
        part: Seq<Seq<BinEntry<V>>>,
        rows: Seq<usize>,
        p: spec_fn(usize) -> bool,
        q: spec_fn(usize) -> bool,
    )
        requires
            crate::exact::exact(worth),
            all.len() == self.columns.len(),
            crate::tree::histogram::are_differences(rest, all, part),
            self.hist_sums(worth, all, rows),
            self.hist_sums(worth, part, rows.filter(p)),
            forall|r: usize| #[trigger] p(r) == !q(r),
        ensures
            self.hist_sums(worth, rest, rows.filter(q)),
    {
        assert forall|f: int| 0 <= f < self.columns.len() implies crate::tree::histogram::sums_rows(
            worth,
            #[trigger] rest[f],
            self.columns[f],
            self.gradients,
            self.hessians,
            rows.filter(q),
        ) by {
            let column = self.columns[f];
            assert(crate::tree::histogram::is_difference(rest[f], all[f], part[f]));
            assert forall|b: int| 0 <= b < NUM_BINS implies worth(
                (#[trigger] rest[f][b]).sum_gradients,
            ) == worth(
                crate::tree::histogram::bin_sum(self.gradients, column, rows.filter(q), b),
            ) && worth(rest[f][b].sum_hessians) == worth(
                crate::tree::histogram::bin_sum(self.hessians, column, rows.filter(q), b),
            ) by {
                let (g, h) = (self.gradients, self.hessians);
                crate::tree::histogram::lemma_sums_divided(worth, g, column, rows, p, q, b);
                crate::tree::histogram::lemma_sums_divided(worth, h, column, rows, p, q, b);
                assert(rest[f][b] == crate::tree::histogram::entry_difference(
                    all[f][b],
                    part[f][b],
                ));
                assert(crate::tree::histogram::sums_rows(worth, all[f], column, g, h, rows));
                assert(crate::tree::histogram::sums_rows(
                    worth,
                    part[f],
                    column,
                    g,
                    h,
                    rows.filter(p),
                ));
            }
        }
    }

    /// Splitting a leaf gives each side the sums of its rows.
    proof fn lemma_split_summed(
        self,
        worth: spec_fn(V) -> real,
        s: Growth<V, T>,
        i: int,
        t: Growth<V, T>,
    )
        requires
            crate::exact::exact(worth),
            self.wf(),
            self.columns.len() <= usize::MAX,
            self.sound(s),
            self.weighed(s),
            self.summed(worth, s),
            0 <= i < s.open.len(),
            self.splittable(s, s.open[i]),
            s.leaves < self.max_leaves,
            self.splits(s, s.open[i], s.open.remove(i), t),
        ensures
            self.summed(worth, t),
    {
        let c = s.open[i];
        let rest = s.open.remove(i);
        let split = c.split->Some_0;
        let f = split.feature_idx as int;
        let column = self.columns[f];
        let size = s.nodes.len() as int;
        assert(self.sound_candidate(s, c));
        assert(self.found_with_sums(s, c));
        assert(self.summed_candidate(worth, s, c));
        let totals = NodeTotals {
            gradient: s.nodes[c.node].sum_gradients,
            hessian: s.nodes[c.node].sum_hessians,
            count: c.rows.len() as u32,
        };
        let order = crate::tree::split::looked_at(None, self.columns.len());
        crate::tree::split::lemma_found_on_feature(
            &self.finder,
            c.hist,
            order,
            totals,
            self.functions,
            split,
        );
        let place = choose|place: int| 0 <= place < order.len() && order[place] == split.feature_idx;
        assert(order[place] == place as usize);
        assert(0 <= f < self.columns.len());
        assert(crate::tree::histogram::counts_rows(c.hist[f], column, c.rows));
        assert(crate::tree::histogram::sums_rows(
            worth,
            c.hist[f],
            column,
            self.gradients,
            self.hessians,
            c.rows,
        ));
        crate::tree::split::law_split_sums_are_of_its_rows(
            worth,
            &self.finder,
            c.hist[f],
            split.feature_idx,
            totals,
            self.functions,
            split,
            column,
            self.gradients,
            self.hessians,
            c.rows,
        );
        let p = |r: usize| column[r as int] <= split.bin_threshold;
        let q = |r: usize| !(column[r as int] <= split.bin_threshold);
        let left = rows_left(column, c.rows, split.bin_threshold);
        let right = rows_right(column, c.rows, split.bin_threshold);
        assert(left == c.rows.filter(p) && right == c.rows.filter(q));
        let v = choose|v: T|
            #[trigger] call_ensures(
                self.split_value,
                (split.feature_idx, split.bin_threshold),
                v,
            ) && t.nodes == self.nodes_after(s, c, v);
        assert(self.weighed_by(worth, split.left_gradient, split.left_hessian, left));
        assert(self.weighed_by(worth, split.right_gradient, split.right_hessian, right));
        assert forall|k: int| 0 <= k < t.nodes.len() implies #[trigger] self.sums_of_rows(
            worth,
            t,
            k,
        ) by {
            if k < size {
                assert(self.sums_of_rows(worth, s, k));
                let rows = choose|rows: Seq<usize>|
                    rows.to_multiset() == s.rows_at[k] && #[trigger] self.weighed_by(
                        worth,
                        s.nodes[k].sum_gradients,
                        s.nodes[k].sum_hessians,
                        rows,
                    );
                assert(t.rows_at[k] == s.rows_at[k]);
                assert(self.weighed_by(
                    worth,
                    t.nodes[k].sum_gradients,
                    t.nodes[k].sum_hessians,
                    rows,
                ));
            } else if k == size {
                assert(t.rows_at[k] == left.to_multiset());
                assert(self.weighed_by(
                    worth,
                    t.nodes[k].sum_gradients,
                    t.nodes[k].sum_hessians,
                    left,
                ));
            } else {
                assert(t.rows_at[k] == right.to_multiset());
                assert(self.weighed_by(
                    worth,
                    t.nodes[k].sum_gradients,
                    t.nodes[k].sum_hessians,
                    right,
                ));
            }
        }
        assert forall|j: int| 0 <= j < rest.len() implies self.summed_candidate(
            worth,
            t,
            #[trigger] rest[j],
        ) by {
            let o: int = if j < i {
                j
            } else {
                j + 1
            };
            assert(rest[j] == s.open[o]);
            assert(self.sound_candidate(s, s.open[o]));
            assert(self.summed_candidate(worth, s, s.open[o]));
        }
        if t.leaves < self.max_leaves {
            let (small, large) = choose|small: Candidate<V>, large: Candidate<V>|
                #[trigger] self.children_wait(s, c, small, large) && t.open == rest.push(
                    small,
                ).push(large);
            self.lemma_histograms_sum(worth, small.hist, small.rows);
            if left.len() <= right.len() {
                self.lemma_differences_sum(worth, large.hist, c.hist, small.hist, c.rows, p, q);
            } else {
                self.lemma_differences_sum(worth, large.hist, c.hist, small.hist, c.rows, q, p);
            }
            let m = rest.len() as int;
            assert forall|j: int| 0 <= j < t.open.len() implies self.summed_candidate(
                worth,
                t,
                #[trigger] t.open[j],
            ) by {
                if j < m {
                    assert(t.open[j] == rest[j]);
                } else if j == m {
                    assert(t.open[j] == small);
                } else {
                    assert(t.open[j] == large);
                }
            }
        }
    }

    /// The sums of every node are those of the rows at the node: of each row that
    /// its tests lead there, and of no other.
    pub proof fn law_node_sums_are_of_its_rows(
        self,
        worth: spec_fn(V) -> real,
        n: nat,
        s: Growth<V, T>,
    )
        requires
            crate::exact::exact(worth),
            self.wf(),
            self.columns.len() <= usize::MAX,
            self.grows(n, s),
        ensures
            forall|k: int| 0 <= k < s.nodes.len() ==> #[trigger] self.sums_of_rows(worth, s, k),
    {
        self.lemma_growth_summed(worth, n, s);
    }

    proof fn lemma_growth_summed(self, worth: spec_fn(V) -> real, n: nat, s: Growth<V, T>)
        requires
            crate::exact::exact(worth),
            self.wf(),
            self.columns.len() <= usize::MAX,
            self.grows(n, s),
        ensures
            self.summed(worth, s),
        decreases n,
    {
        if n == 0 {
            let all = all_rows(self.num_rows);
            let (g, h) = (self.gradients, self.hessians);
            assert(Seq::new(all.len(), |i: int| g[all[i] as int]) =~= g);
            assert(Seq::new(all.len(), |i: int| h[all[i] as int]) =~= h);
            self.lemma_histograms_sum(worth, s.open[0].hist, all);
            assert(self.weighed_by(
                worth,
                s.nodes[0].sum_gradients,
                s.nodes[0].sum_hessians,
                all,
            ));
            assert(self.sums_of_rows(worth, s, 0));
        } else {
            let (before, i) = choose|before: Growth<V, T>, i: int|
                self.grows((n - 1) as nat, before) && #[trigger] self.steps(before, i, s);
            self.lemma_growth_summed(worth, (n - 1) as nat, before);
            self.lemma_growth_weighed((n - 1) as nat, before);
            self.law_growth_is_sound((n - 1) as nat, before);
            if self.splittable(before, before.open[i]) {
                self.lemma_split_summed(worth, before, i, s);
            } else {
                assert forall|j: int| 0 <= j < s.open.len() implies self.summed_candidate(
                    worth,
                    s,
                    #[trigger] s.open[j],
                ) by {
                    let o: int = if j < i {
                        j
                    } else {
                        j + 1
                    };
                    assert(s.open[j] == before.open[o]);
                    assert(self.summed_candidate(worth, before, before.open[o]));
                }
                assert forall|k: int| 0 <= k < s.nodes.len() implies #[trigger] self.sums_of_rows(
                    worth,
                    s,
                    k,
                ) by {
                    assert(self.sums_of_rows(worth, before, k));
                }
            }
        }
    }

    /// The value of a leaf, times the regularized hessians of the rows that its
    /// tests lead there, makes up for the shrunk gradients of these rows.
    pub proof fn law_leaf_value_makes_up_for_its_rows(
        self,
        worth: spec_fn(V) -> real,
        n: nat,
        s: Growth<V, T>,
        k: int,
        value: V,
    )
        requires
            crate::exact::exact(worth),
            self.wf(),
            self.columns.len() <= usize::MAX,
            self.grows(n, s),
            0 <= k < s.nodes.len(),
            s.nodes[k].node_type == (NodeType::<V, T>::Leaf { value }),
            worth(s.nodes[k].sum_hessians) + worth(self.finder.lambda) != 0real,
        ensures
            exists|rows: Seq<usize>|
                {
                    let g = worth(#[trigger] crate::tree::histogram::row_sum(self.gradients, rows));
                    let h = worth(crate::tree::histogram::row_sum(self.hessians, rows));
                    &&& rows.to_multiset() == s.rows_at[k]
                    &&& worth(value) * (h + worth(self.finder.lambda)) + g * worth(
                        self.learning_rate,
                    ) == 0real
                },
    {
        self.law_growth_weighs_leaves(n, s);
        self.law_node_sums_are_of_its_rows(worth, n, s);
        assert(self.sums_of_rows(worth, s, k));
        let rows = choose|rows: Seq<usize>|
            rows.to_multiset() == s.rows_at[k] && #[trigger] self.weighed_by(
                worth,
                s.nodes[k].sum_gradients,
                s.nodes[k].sum_hessians,
                rows,
            );
        let node = s.nodes[k];
        let g = worth(node.sum_gradients);
        let all = worth(node.sum_hessians) + worth(self.finder.lambda);
        let rate = worth(self.learning_rate);
        let less = 0real - g;
        crate::exact::lemma_quotient(less, all);
        let w = less / all;
        assert(worth(value) == w * rate);
        assert((w * rate) * all == (w * all) * rate) by (nonlinear_arith);
        assert(less * rate == 0real - g * rate) by (nonlinear_arith)
            requires
                less == 0real - g,
        ;
        assert(worth(crate::tree::histogram::row_sum(self.gradients, rows)) == g);
    }
}

} // verus!
