//! Histograms: per bin of a feature, the sums over the rows that fall into it.

use crate::number::Number;
use crate::tree::dataset::BinnedDataset;
use vstd::multiset::Multiset;
use vstd::prelude::*;

verus! {

/// The number of bins of a feature.
pub const NUM_BINS: usize = 256;

/// The sums over the rows of one bin.
#[derive(Debug, Clone, Copy)]
pub struct BinEntry<V> {
    /// The sum of the gradients.
    pub sum_gradients: V,
    /// The sum of the hessians.
    pub sum_hessians: V,
    /// The number of rows.
    pub count: u32,
}

/// The sum of `values` over those of `rows` whose bin is `b`, added up in the
/// order of `rows`.
pub open spec fn bin_sum<V: Number>(
    values: Seq<V>,
    column: Seq<u8>,
    rows: Seq<usize>,
    b: int,
) -> V
    decreases rows.len(),
{
    if rows.len() == 0 {
        crate::number::small(0)
    } else {
        let before = bin_sum(values, column, rows.drop_last(), b);
        let row = rows.last() as int;
        if column[row] == b {
            crate::number::plus(before, values[row])
        } else {
            before
        }
    }
}

/// How many of `rows` have bin `b`.
pub open spec fn bin_count(column: Seq<u8>, rows: Seq<usize>, b: int) -> nat
    decreases rows.len(),
{
    if rows.len() == 0 {
        0
    } else {
        bin_count(column, rows.drop_last(), b) + (if column[rows.last() as int] == b {
            1nat
        } else {
            0nat
        })
    }
}

/// The number of rows in the first `n` bins.
pub open spec fn count_below<V>(bins: Seq<BinEntry<V>>, n: int) -> nat
    decreases n,
{
    if n <= 0 {
        0
    } else {
        count_below(bins, n - 1) + bins[n - 1].count as nat
    }
}

/// The counts of a histogram are those of `rows`.
pub open spec fn counts_rows<V>(
    bins: Seq<BinEntry<V>>,
    column: Seq<u8>,
    rows: Seq<usize>,
) -> bool {
    &&& bins.len() == NUM_BINS
    &&& forall|b: int|
        0 <= b < NUM_BINS ==> (#[trigger] bins[b]).count == bin_count(column, rows, b)
}

/// How many of `rows` have a bin below `n`.
pub open spec fn rows_below(column: Seq<u8>, rows: Seq<usize>, n: int) -> nat
    decreases rows.len(),
{
    if rows.len() == 0 {
        0
    } else {
        rows_below(column, rows.drop_last(), n) + (if column[rows.last() as int] < n {
            1nat
        } else {
            0nat
        })
    }
}

proof fn lemma_rows_below_step(column: Seq<u8>, rows: Seq<usize>, n: int)
    ensures
        rows_below(column, rows, n + 1) == rows_below(column, rows, n) + bin_count(
            column,
            rows,
            n,
        ),
    decreases rows.len(),
{
    if rows.len() > 0 {
        lemma_rows_below_step(column, rows.drop_last(), n);
    }
}

/// No row has a bin below zero, every row has one below the number of bins, and
/// no more rows are counted than there are.
pub proof fn lemma_rows_below_ends(column: Seq<u8>, rows: Seq<usize>, n: int)
    ensures
        rows_below(column, rows, 0) == 0,
        n >= NUM_BINS ==> rows_below(column, rows, n) == rows.len(),
        rows_below(column, rows, n) <= rows.len(),
    decreases rows.len(),
{
    if rows.len() > 0 {
        lemma_rows_below_ends(column, rows.drop_last(), n);
    }
}

/// A histogram that counts `rows` counts, in its first `n` bins, the rows with
/// a bin below `n`.
pub proof fn lemma_count_below<V>(
    bins: Seq<BinEntry<V>>,
    column: Seq<u8>,
    rows: Seq<usize>,
    n: int,
)
    requires
        counts_rows(bins, column, rows),
        0 <= n <= NUM_BINS,
    ensures
        count_below(bins, n) == rows_below(column, rows, n),
    decreases n,
{
    if n == 0 {
        lemma_rows_below_ends(column, rows, 0);
    } else {
        lemma_count_below(bins, column, rows, n - 1);
        lemma_rows_below_step(column, rows, n - 1);
    }
}

/// The rows of a bin are divided like all rows.
pub proof fn lemma_bin_count_divides(
    column: Seq<u8>,
    rows: Seq<usize>,
    keep: spec_fn(usize) -> bool,
    drop: spec_fn(usize) -> bool,
    b: int,
)
    requires
        forall|r: usize| #[trigger] drop(r) == !keep(r),
    ensures
        bin_count(column, rows, b) == bin_count(column, rows.filter(keep), b) + bin_count(
            column,
            rows.filter(drop),
            b,
        ),
    decreases rows.len(),
{
    reveal(Seq::filter);
    if rows.len() > 0 {
        let fewer = rows.drop_last();
        let last = rows.last();
        lemma_bin_count_divides(column, fewer, keep, drop, b);
        if keep(last) {
            assert(!drop(last));
            assert(rows.filter(keep) =~= fewer.filter(keep).push(last));
            assert(rows.filter(keep).drop_last() =~= fewer.filter(keep));
            assert(rows.filter(drop) =~= fewer.filter(drop));
        } else {
            assert(drop(last));
            assert(rows.filter(drop) =~= fewer.filter(drop).push(last));
            assert(rows.filter(drop).drop_last() =~= fewer.filter(drop));
            assert(rows.filter(keep) =~= fewer.filter(keep));
        }
    } else {
        assert(rows.filter(keep) =~= rows);
        assert(rows.filter(drop) =~= rows);
    }
}

/// What remains of a histogram of rows, once that of some of them has been
/// taken away, counts the others.
pub proof fn lemma_difference_counts<V: Number>(
    r: Seq<BinEntry<V>>,
    parent: Seq<BinEntry<V>>,
    child: Seq<BinEntry<V>>,
    column: Seq<u8>,
    rows: Seq<usize>,
    keep: spec_fn(usize) -> bool,
    drop: spec_fn(usize) -> bool,
)
    requires
        is_difference(r, parent, child),
        counts_rows(parent, column, rows),
        counts_rows(child, column, rows.filter(keep)),
        forall|x: usize| #[trigger] drop(x) == !keep(x),
    ensures
        counts_rows(r, column, rows.filter(drop)),
{
    assert forall|b: int| 0 <= b < NUM_BINS implies (#[trigger] r[b]).count == bin_count(
        column,
        rows.filter(drop),
        b,
    ) by {
        lemma_bin_count_divides(column, rows, keep, drop, b);
        assert(parent[b].count == bin_count(column, rows, b));
        assert(child[b].count == bin_count(column, rows.filter(keep), b));
        assert(r[b] == entry_difference(parent[b], child[b]));
    }
}

/// The histogram of rows counts them.
pub proof fn lemma_histogram_counts<V: Number>(
    bins: Seq<BinEntry<V>>,
    column: Seq<u8>,
    gradients: Seq<V>,
    hessians: Seq<V>,
    rows: Seq<usize>,
)
    requires
        is_histogram(bins, column, gradients, hessians, rows),
        rows.len() <= u32::MAX,
    ensures
        counts_rows(bins, column, rows),
{
    assert forall|b: int| 0 <= b < NUM_BINS implies (#[trigger] bins[b]).count == bin_count(
        column,
        rows,
        b,
    ) by {
        lemma_bin_count_bounded(column, rows, b);
    }
}

/// How many of `rows` have a bin does not depend on their order.
pub proof fn lemma_bin_count_filter(column: Seq<u8>, rows: Seq<usize>, b: int)
    ensures
        bin_count(column, rows, b) == rows.to_multiset().filter(
            |r: usize| column[r as int] == b,
        ).len(),
    decreases rows.len(),
{
    broadcast use vstd::multiset::group_multiset_axioms;
    broadcast use vstd::seq_lib::group_to_multiset_ensures;

    let keep = |r: usize| column[r as int] == b;
    if rows.len() == 0 {
        assert(rows.to_multiset().filter(keep) =~= Multiset::empty());
    } else {
        let fewer = rows.drop_last();
        let last = rows.last();
        lemma_bin_count_filter(column, fewer, b);
        assert(rows =~= fewer.push(last));
        assert(rows.to_multiset() =~= fewer.to_multiset().insert(last));
        if keep(last) {
            assert(rows.to_multiset().filter(keep) =~= fewer.to_multiset().filter(keep).insert(
                last,
            ));
        } else {
            assert(rows.to_multiset().filter(keep) =~= fewer.to_multiset().filter(keep));
        }
    }
}

/// Dividing rows by a test divides those that have a bin.
pub proof fn lemma_bin_count_divided(
    column: Seq<u8>,
    rows: Seq<usize>,
    tested: Seq<u8>,
    threshold: u8,
    left: Seq<usize>,
    right: Seq<usize>,
    b: int,
)
    requires
        crate::tree::partition::divides(tested, rows, threshold, left, right),
    ensures
        bin_count(column, rows, b) == bin_count(column, left, b) + bin_count(column, right, b),
{
    broadcast use vstd::multiset::group_multiset_axioms;

    let keep = |r: usize| column[r as int] == b;
    lemma_bin_count_filter(column, rows, b);
    lemma_bin_count_filter(column, left, b);
    lemma_bin_count_filter(column, right, b);
    let l = left.to_multiset().filter(keep);
    let r = right.to_multiset().filter(keep);
    assert(rows.to_multiset().filter(keep) =~= l.add(r));
    assert(l.add(r).len() == l.len() + r.len());
}

/// The histogram of one feature.
#[derive(Debug, Clone)]
pub struct Histogram<V> {
    bins: Vec<BinEntry<V>>,
}

impl<V> View for Histogram<V> {
    type V = Seq<BinEntry<V>>;

    closed spec fn view(&self) -> Seq<BinEntry<V>> {
        self.bins@
    }
}

/// `bins` is the histogram of `rows`.
pub open spec fn is_histogram<V: Number>(
    bins: Seq<BinEntry<V>>,
    column: Seq<u8>,
    gradients: Seq<V>,
    hessians: Seq<V>,
    rows: Seq<usize>,
) -> bool {
    &&& bins.len() == NUM_BINS
    &&& forall|b: int|
        0 <= b < NUM_BINS ==> (#[trigger] bins[b]) == (BinEntry {
            sum_gradients: bin_sum(gradients, column, rows, b),
            sum_hessians: bin_sum(hessians, column, rows, b),
            count: bin_count(column, rows, b) as u32,
        })
}

proof fn lemma_bin_count_bounded(column: Seq<u8>, rows: Seq<usize>, b: int)
    ensures
        bin_count(column, rows, b) <= rows.len(),
    decreases rows.len(),
{
    if rows.len() > 0 {
        lemma_bin_count_bounded(column, rows.drop_last(), b);
    }
}

impl<V: Number> Histogram<V> {
    /// A histogram has an entry for each bin.
    pub open spec fn wf(&self) -> bool {
        self@.len() == NUM_BINS
    }

    /// A histogram of no rows.
    pub fn new() -> (r: Self)
        requires
            crate::number::arithmetic::<V>(),
        ensures
            r.wf(),
            forall|b: int|
                0 <= b < NUM_BINS ==> (#[trigger] r@[b]) == (BinEntry {
                    sum_gradients: crate::number::small::<V>(0),
                    sum_hessians: crate::number::small::<V>(0),
                    count: 0,
                }),
    {
        let zero: V = V::from(0u8);
        let mut bins: Vec<BinEntry<V>> = Vec::new();
        let mut b: usize = 0;
        while b < NUM_BINS
            invariant
                b <= NUM_BINS,
                bins.len() == b,
                forall|k: int|
                    0 <= k < b ==> (#[trigger] bins[k]) == (BinEntry {
                        sum_gradients: zero,
                        sum_hessians: zero,
                        count: 0,
                    }),
            decreases NUM_BINS - b,
        {
            bins.push(BinEntry { sum_gradients: zero, sum_hessians: zero, count: 0 });
            b = b + 1;
        }
        Histogram { bins }
    }

    /// The entries.
    pub fn bins(&self) -> (r: &[BinEntry<V>])
        ensures
            r@ == self@,
    {
        self.bins.as_slice()
    }

    /// Adds one row.
    pub fn accumulate(&mut self, bin: u8, gradient: V, hessian: V)
        requires
            crate::number::arithmetic::<V>(),
            old(self).wf(),
            old(self)@[bin as int].count < u32::MAX,
        ensures
            final(self)@ == old(self)@.update(
                bin as int,
                BinEntry {
                    sum_gradients: crate::number::plus(
                        old(self)@[bin as int].sum_gradients,
                        gradient,
                    ),
                    sum_hessians: crate::number::plus(
                        old(self)@[bin as int].sum_hessians,
                        hessian,
                    ),
                    count: (old(self)@[bin as int].count + 1) as u32,
                },
            ),
    {
        let entry = self.bins[bin as usize];
        self.bins.set(
            bin as usize,
            BinEntry {
                sum_gradients: entry.sum_gradients + gradient,
                sum_hessians: entry.sum_hessians + hessian,
                count: entry.count + 1,
            },
        );
    }

    /// The histogram of the given rows of a feature.
    pub fn build(column: &[u8], gradients: &[V], hessians: &[V], rows: &[usize]) -> (r: Self)
        requires
            crate::number::arithmetic::<V>(),
            rows.len() <= u32::MAX,
            gradients.len() == column.len(),
            hessians.len() == column.len(),
            forall|i: int| 0 <= i < rows.len() ==> (#[trigger] rows[i]) < column.len(),
        ensures
            is_histogram(r@, column@, gradients@, hessians@, rows@),
            counts_rows(r@, column@, rows@),
    {
        let mut h = Histogram::<V>::new();
        let mut n: usize = 0;
        assert(rows@.take(0) =~= Seq::<usize>::empty());
        while n < rows.len()
            invariant
                crate::number::arithmetic::<V>(),
                n <= rows.len() <= u32::MAX,
                gradients.len() == column.len(),
                hessians.len() == column.len(),
                forall|i: int| 0 <= i < rows.len() ==> (#[trigger] rows[i]) < column.len(),
                is_histogram(h@, column@, gradients@, hessians@, rows@.take(n as int)),
            decreases rows.len() - n,
        {
            let row: usize = rows[n];
            let ghost seen = rows@.take(n as int);
            let ghost now = rows@.take(n + 1);
            proof {
                assert(now.drop_last() =~= seen);
                assert(now.last() == row);
                lemma_bin_count_bounded(column@, seen, column[row as int] as int);
            }
            let ghost before = h@;
            h.accumulate(column[row], gradients[row], hessians[row]);
            proof {
                assert forall|b: int| 0 <= b < NUM_BINS implies (#[trigger] h@[b]) == (BinEntry {
                    sum_gradients: bin_sum(gradients@, column@, now, b),
                    sum_hessians: bin_sum(hessians@, column@, now, b),
                    count: bin_count(column@, now, b) as u32,
                }) by {
                    assert(before[b] == (BinEntry {
                        sum_gradients: bin_sum(gradients@, column@, seen, b),
                        sum_hessians: bin_sum(hessians@, column@, seen, b),
                        count: bin_count(column@, seen, b) as u32,
                    }));
                }
            }
            n = n + 1;
        }
        assert(rows@.take(n as int) =~= rows@);
        assert forall|b: int| 0 <= b < NUM_BINS implies (#[trigger] h@[b]).count == bin_count(
            column@,
            rows@,
            b,
        ) by {
            lemma_bin_count_bounded(column@, rows@, b);
        }
        h
    }

    /// The histogram of the rows of `parent` that are not among those of
    /// `child`, by subtraction.
    pub fn build_sibling(parent: &Self, child: &Self) -> (r: Self)
        requires
            crate::number::arithmetic::<V>(),
            parent.wf(),
            child.wf(),
            forall|b: int|
                0 <= b < NUM_BINS ==> (#[trigger] child@[b]).count <= parent@[b].count,
        ensures
            is_difference(r@, parent@, child@),
    {
        let mut bins: Vec<BinEntry<V>> = Vec::new();
        let mut b: usize = 0;
        while b < NUM_BINS
            invariant
                crate::number::arithmetic::<V>(),
                parent.wf(),
                child.wf(),
                forall|k: int|
                    0 <= k < NUM_BINS ==> (#[trigger] child@[k]).count <= parent@[k].count,
                b <= NUM_BINS,
                bins.len() == b,
                forall|k: int|
                    0 <= k < b ==> (#[trigger] bins[k]) == entry_difference(parent@[k], child@[k]),
            decreases NUM_BINS - b,
        {
            let p = parent.bins[b];
            let c = child.bins[b];
            assert(c == child@[b as int] && p == parent@[b as int]);
            bins.push(
                BinEntry {
                    sum_gradients: p.sum_gradients - c.sum_gradients,
                    sum_hessians: p.sum_hessians - c.sum_hessians,
                    count: p.count - c.count,
                },
            );
            b = b + 1;
        }
        Histogram { bins }
    }
}

/// One entry less another.
pub open spec fn entry_difference<V: Number>(p: BinEntry<V>, c: BinEntry<V>) -> BinEntry<V> {
    BinEntry {
        sum_gradients: crate::number::minus(p.sum_gradients, c.sum_gradients),
        sum_hessians: crate::number::minus(p.sum_hessians, c.sum_hessians),
        count: (p.count - c.count) as u32,
    }
}

/// `r` is `parent` less `child`, bin by bin.
pub open spec fn is_difference<V: Number>(
    r: Seq<BinEntry<V>>,
    parent: Seq<BinEntry<V>>,
    child: Seq<BinEntry<V>>,
) -> bool {
    &&& r.len() == NUM_BINS
    &&& forall|b: int|
        0 <= b < NUM_BINS ==> (#[trigger] r[b]) == entry_difference(parent[b], child[b])
}

/// The histograms of all features at one node.
#[derive(Debug, Clone)]
pub struct NodeHistograms<V> {
    histograms: Vec<Histogram<V>>,
}

impl<V> View for NodeHistograms<V> {
    type V = Seq<Seq<BinEntry<V>>>;

    closed spec fn view(&self) -> Seq<Seq<BinEntry<V>>> {
        Seq::new(self.histograms.len() as nat, |f: int| self.histograms[f]@)
    }
}

/// `h` holds the histograms of `rows`, feature by feature.
pub open spec fn are_histograms<V: Number>(
    h: Seq<Seq<BinEntry<V>>>,
    columns: Seq<Seq<u8>>,
    gradients: Seq<V>,
    hessians: Seq<V>,
    rows: Seq<usize>,
) -> bool {
    &&& h.len() == columns.len()
    &&& forall|f: int|
        0 <= f < h.len() ==> is_histogram(#[trigger] h[f], columns[f], gradients, hessians, rows)
}

/// The counts of all histograms are those of `rows`.
pub open spec fn count_rows<V>(
    h: Seq<Seq<BinEntry<V>>>,
    columns: Seq<Seq<u8>>,
    rows: Seq<usize>,
) -> bool {
    &&& h.len() == columns.len()
    &&& forall|f: int| 0 <= f < h.len() ==> counts_rows(#[trigger] h[f], columns[f], rows)
}

/// `r` is `parent` less `child`, feature by feature.
pub open spec fn are_differences<V: Number>(
    r: Seq<Seq<BinEntry<V>>>,
    parent: Seq<Seq<BinEntry<V>>>,
    child: Seq<Seq<BinEntry<V>>>,
) -> bool {
    &&& r.len() == parent.len()
    &&& forall|f: int| 0 <= f < r.len() ==> is_difference(#[trigger] r[f], parent[f], child[f])
}

impl<V: Number> NodeHistograms<V> {
    /// Every histogram has an entry for each bin.
    pub open spec fn wf(&self) -> bool {
        forall|f: int| 0 <= f < self@.len() ==> (#[trigger] self@[f]).len() == NUM_BINS
    }

    /// No histogram counts more than `count` rows.
    pub open spec fn fits(&self, count: u32) -> bool {
        forall|f: int|
            0 <= f < self@.len() ==> count_below(#[trigger] self@[f], NUM_BINS as int) <= count
    }

    /// Histograms of no rows.
    pub fn new(num_features: usize) -> (r: Self)
        requires
            crate::number::arithmetic::<V>(),
        ensures
            r.wf(),
            r@.len() == num_features,
            forall|f: int, b: int|
                0 <= f < num_features && 0 <= b < NUM_BINS ==> (#[trigger] r@[f][b]) == (BinEntry {
                    sum_gradients: crate::number::small::<V>(0),
                    sum_hessians: crate::number::small::<V>(0),
                    count: 0,
                }),
    {
        let mut histograms: Vec<Histogram<V>> = Vec::new();
        let mut f: usize = 0;
        while f < num_features
            invariant
                crate::number::arithmetic::<V>(),
                f <= num_features,
                histograms.len() == f,
                forall|k: int| 0 <= k < f ==> (#[trigger] histograms[k]).wf(),
                forall|k: int, b: int|
                    0 <= k < f && 0 <= b < NUM_BINS ==> (#[trigger] histograms[k]@[b]) == (BinEntry {
                        sum_gradients: crate::number::small::<V>(0),
                        sum_hessians: crate::number::small::<V>(0),
                        count: 0,
                    }),
            decreases num_features - f,
        {
            histograms.push(Histogram::new());
            f = f + 1;
        }
        NodeHistograms { histograms }
    }

    /// The histogram of one feature, to be changed.
    pub fn get_mut(&mut self, feature_idx: usize) -> (r: &mut Histogram<V>)
        requires
            feature_idx < old(self)@.len(),
        ensures
            r@ == old(self)@[feature_idx as int],
            final(self)@ == old(self)@.update(feature_idx as int, final(r)@),
    {
        &mut self.histograms[feature_idx]
    }

    /// The number of features.
    pub fn num_features(&self) -> (r: usize)
        ensures
            r == self@.len(),
    {
        self.histograms.len()
    }

    /// The histogram of one feature.
    pub fn get(&self, feature_idx: usize) -> (r: &Histogram<V>)
        requires
            feature_idx < self@.len(),
        ensures
            r@ == self@[feature_idx as int],
    {
        &self.histograms[feature_idx]
    }

    /// The histograms of the given rows.
    pub fn build(
        dataset: &BinnedDataset,
        rows: &[usize],
        gradients: &[V],
        hessians: &[V],
    ) -> (r: Self)
        requires
            crate::number::arithmetic::<V>(),
            rows.len() <= u32::MAX,
            gradients.len() == dataset.rows(),
            hessians.len() == dataset.rows(),
            forall|i: int| 0 <= i < rows.len() ==> (#[trigger] rows[i]) < dataset.rows(),
        ensures
            r.wf(),
            are_histograms(r@, dataset@, gradients@, hessians@, rows@),
            count_rows(r@, dataset@, rows@),
    {
        let num_features: usize = dataset.num_features();
        let mut histograms: Vec<Histogram<V>> = Vec::new();
        let mut f: usize = 0;
        while f < num_features
            invariant
                crate::number::arithmetic::<V>(),
                num_features == dataset@.len(),
                dataset.rectangular(),
                rows.len() <= u32::MAX,
                gradients.len() == dataset.rows(),
                hessians.len() == dataset.rows(),
                forall|i: int| 0 <= i < rows.len() ==> (#[trigger] rows[i]) < dataset.rows(),
                f <= num_features,
                histograms.len() == f,
                forall|k: int|
                    0 <= k < f ==> is_histogram(
                        (#[trigger] histograms[k])@,
                        dataset@[k],
                        gradients@,
                        hessians@,
                        rows@,
                    ) && counts_rows(histograms[k]@, dataset@[k], rows@),
            decreases num_features - f,
        {
            let column = dataset.feature_column(f);
            histograms.push(Histogram::build(column, gradients, hessians, rows));
            f = f + 1;
        }
        NodeHistograms { histograms }
    }

    /// The histograms of the rows of `parent` that are not among those of
    /// `child`, by subtraction.
    pub fn build_sibling(parent: &Self, child: &Self) -> (r: Self)
        requires
            crate::number::arithmetic::<V>(),
            parent.wf(),
            child.wf(),
            parent@.len() == child@.len(),
            forall|f: int, b: int|
                0 <= f < parent@.len() && 0 <= b < NUM_BINS ==> (#[trigger] child@[f][b]).count
                    <= parent@[f][b].count,
        ensures
            r.wf(),
            are_differences(r@, parent@, child@),
    {
        let mut histograms: Vec<Histogram<V>> = Vec::new();
        let mut f: usize = 0;
        while f < parent.histograms.len()
            invariant
                crate::number::arithmetic::<V>(),
                parent.wf(),
                child.wf(),
                parent@.len() == child@.len(),
                forall|g: int, b: int|
                    0 <= g < parent@.len() && 0 <= b < NUM_BINS ==> (#[trigger] child@[g][b]).count
                        <= parent@[g][b].count,
                parent@.len() == parent.histograms.len(),
                f <= parent.histograms.len(),
                histograms.len() == f,
                forall|k: int|
                    0 <= k < f ==> is_difference(
                        (#[trigger] histograms[k])@,
                        parent@[k],
                        child@[k],
                    ),
            decreases parent.histograms.len() - f,
        {
            let p = parent.get(f);
            let c = child.get(f);
            assert forall|b: int| 0 <= b < NUM_BINS implies (#[trigger] c@[b]).count
                <= p@[b].count by {
                assert(c@[b] == child@[f as int][b]);
            }
            histograms.push(Histogram::build_sibling(p, c));
            f = f + 1;
        }
        NodeHistograms { histograms }
    }
}

/// The sums of a bin over two lists of rows add up to that over both, and a row
/// counts with its value for its own bin and for no other.
pub proof fn law_bin_sums_add_up<V: Number>(
    worth: spec_fn(V) -> real,
    values: Seq<V>,
    column: Seq<u8>,
    a: Seq<usize>,
    b: Seq<usize>,
    bin: int,
    row: usize,
)
    requires
        crate::exact::exact(worth),
    ensures
        worth(bin_sum(values, column, a + b, bin)) == worth(bin_sum(values, column, a, bin))
            + worth(bin_sum(values, column, b, bin)),
        bin_count(column, a + b, bin) == bin_count(column, a, bin) + bin_count(column, b, bin),
        column[row as int] == bin ==> worth(bin_sum(values, column, seq![row], bin)) == worth(
            values[row as int],
        ) && bin_count(column, seq![row], bin) == 1,
        column[row as int] != bin ==> worth(bin_sum(values, column, seq![row], bin)) == 0real
            && bin_count(column, seq![row], bin) == 0,
    decreases b.len(),
{
    let none = Seq::<usize>::empty();
    assert(seq![row].drop_last() =~= none);
    assert(seq![row].last() == row);
    assert(worth(bin_sum(values, column, none, bin)) == 0real);
    assert(bin_count(column, none, bin) == 0);
    if b.len() == 0 {
        assert(a + b =~= a);
        assert(b =~= none);
    } else {
        law_bin_sums_add_up(worth, values, column, a, b.drop_last(), bin, row);
        assert((a + b).drop_last() =~= a + b.drop_last());
        assert((a + b).last() == b.last());
    }
}

/// A histogram less that of some of its rows is the histogram of the others.
pub proof fn law_difference_is_of_the_others<V: Number>(
    worth: spec_fn(V) -> real,
    column: Seq<u8>,
    gradients: Seq<V>,
    hessians: Seq<V>,
    some: Seq<usize>,
    others: Seq<usize>,
    all: Seq<BinEntry<V>>,
    part: Seq<BinEntry<V>>,
    rest: Seq<BinEntry<V>>,
    bin: int,
)
    requires
        crate::exact::exact(worth),
        is_histogram(all, column, gradients, hessians, some + others),
        is_histogram(part, column, gradients, hessians, some),
        is_difference(rest, all, part),
        some.len() + others.len() <= u32::MAX,
        0 <= bin < NUM_BINS,
    ensures
        worth(rest[bin].sum_gradients) == worth(bin_sum(gradients, column, others, bin)),
        worth(rest[bin].sum_hessians) == worth(bin_sum(hessians, column, others, bin)),
        rest[bin].count == bin_count(column, others, bin),
{
    law_bin_sums_add_up(worth, gradients, column, some, others, bin, 0);
    law_bin_sums_add_up(worth, hessians, column, some, others, bin, 0);
    lemma_bin_count_bounded(column, some, bin);
    lemma_bin_count_bounded(column, others, bin);
    assert(rest[bin] == entry_difference(all[bin], part[bin]));
}

/// The sum of `values` over `rows`.
pub open spec fn row_sum<V: Number>(values: Seq<V>, rows: Seq<usize>) -> V {
    crate::number::total(Seq::new(rows.len(), |i: int| values[rows[i] as int]))
}

/// One row more adds its value.
pub proof fn lemma_row_sum_push<V: Number>(values: Seq<V>, rows: Seq<usize>, r: usize)
    ensures
        row_sum(values, rows.push(r)) == crate::number::plus(
            row_sum(values, rows),
            values[r as int],
        ),
{
    let more = rows.push(r);
    let list = Seq::new(more.len(), |i: int| values[more[i] as int]);
    assert(list.drop_last() =~= Seq::new(rows.len(), |i: int| values[rows[i] as int]));
    assert(list.last() == values[r as int]);
}

proof fn lemma_bin_sum_push<V: Number>(
    values: Seq<V>,
    column: Seq<u8>,
    rows: Seq<usize>,
    r: usize,
    b: int,
)
    ensures
        bin_sum(values, column, rows.push(r), b) == (if column[r as int] == b {
            crate::number::plus(bin_sum(values, column, rows, b), values[r as int])
        } else {
            bin_sum(values, column, rows, b)
        }),
{
    assert(rows.push(r).drop_last() =~= rows);
    assert(rows.push(r).last() == r);
}

/// A bin without rows adds up to nothing.
pub proof fn lemma_empty_bin<V: Number>(
    worth: spec_fn(V) -> real,
    values: Seq<V>,
    column: Seq<u8>,
    rows: Seq<usize>,
    b: int,
)
    requires
        crate::exact::exact(worth),
        bin_count(column, rows, b) == 0,
    ensures
        worth(bin_sum(values, column, rows, b)) == 0real,
    decreases rows.len(),
{
    if rows.len() > 0 {
        lemma_empty_bin(worth, values, column, rows.drop_last(), b);
    }
}

/// The rows with a bin below `n`.
pub open spec fn rows_under(column: Seq<u8>, rows: Seq<usize>, n: int) -> Seq<usize> {
    rows.filter(|r: usize| column[r as int] < n)
}

/// No row has a bin below zero, and one bin more adds the sum of that bin.
pub proof fn lemma_rows_under<V: Number>(
    worth: spec_fn(V) -> real,
    values: Seq<V>,
    column: Seq<u8>,
    rows: Seq<usize>,
    n: int,
)
    requires
        crate::exact::exact(worth),
    ensures
        worth(row_sum(values, rows_under(column, rows, 0))) == 0real,
        worth(row_sum(values, rows_under(column, rows, n + 1))) == worth(
            row_sum(values, rows_under(column, rows, n)),
        ) + worth(bin_sum(values, column, rows, n)),
    decreases rows.len(),
{
    reveal(Seq::filter);
    if rows.len() == 0 {
        let none = Seq::<V>::empty();
        assert(Seq::new(rows.len(), |i: int| values[rows[i] as int]) =~= none);
        assert(worth(crate::number::total(none)) == 0real);
    } else {
        let fewer = rows.drop_last();
        let r = rows.last();
        lemma_rows_under(worth, values, column, fewer, n);
        lemma_row_sum_push(values, rows_under(column, fewer, n + 1), r);
        lemma_row_sum_push(values, rows_under(column, fewer, n), r);
    }
}

/// What rows add up to, those with a property and the others do together, as a
/// whole and bin by bin.
pub proof fn lemma_sums_divided<V: Number>(
    worth: spec_fn(V) -> real,
    values: Seq<V>,
    column: Seq<u8>,
    rows: Seq<usize>,
    p: spec_fn(usize) -> bool,
    q: spec_fn(usize) -> bool,
    b: int,
)
    requires
        crate::exact::exact(worth),
        forall|r: usize| #[trigger] p(r) == !q(r),
    ensures
        worth(row_sum(values, rows)) == worth(row_sum(values, rows.filter(p))) + worth(
            row_sum(values, rows.filter(q)),
        ),
        worth(bin_sum(values, column, rows, b)) == worth(
            bin_sum(values, column, rows.filter(p), b),
        ) + worth(bin_sum(values, column, rows.filter(q), b)),
    decreases rows.len(),
{
    reveal(Seq::filter);
    if rows.len() == 0 {
        let none = Seq::<V>::empty();
        assert(Seq::new(rows.len(), |i: int| values[rows[i] as int]) =~= none);
        assert(worth(crate::number::total(none)) == 0real);
    } else {
        let fewer = rows.drop_last();
        let r = rows.last();
        lemma_sums_divided(worth, values, column, fewer, p, q, b);
        assert(rows =~= fewer.push(r));
        lemma_row_sum_push(values, fewer, r);
        lemma_row_sum_push(values, fewer.filter(p), r);
        lemma_row_sum_push(values, fewer.filter(q), r);
        lemma_bin_sum_push(values, column, fewer, r, b);
        lemma_bin_sum_push(values, column, fewer.filter(p), r, b);
        lemma_bin_sum_push(values, column, fewer.filter(q), r, b);
        assert(p(r) == !q(r));
    }
}

/// The sums of a histogram are those over `rows`, bin by bin.
pub open spec fn sums_rows<V: Number>(
    worth: spec_fn(V) -> real,
    bins: Seq<BinEntry<V>>,
    column: Seq<u8>,
    gradients: Seq<V>,
    hessians: Seq<V>,
    rows: Seq<usize>,
) -> bool {
    forall|b: int|
        0 <= b < NUM_BINS ==> worth((#[trigger] bins[b]).sum_gradients) == worth(
            bin_sum(gradients, column, rows, b),
        ) && worth(bins[b].sum_hessians) == worth(bin_sum(hessians, column, rows, b))
}

/// Every bin is below the number of bins.
pub proof fn lemma_all_rows_under(column: Seq<u8>, rows: Seq<usize>)
    ensures
        rows_under(column, rows, NUM_BINS as int) == rows,
    decreases rows.len(),
{
    reveal(Seq::filter);
    if rows.len() > 0 {
        lemma_all_rows_under(column, rows.drop_last());
        assert(rows =~= rows.drop_last().push(rows.last()));
    }
}

/// Rows add up to the same in any order, as a whole and bin by bin.
pub proof fn lemma_sums_in_any_order<V: Number>(
    worth: spec_fn(V) -> real,
    values: Seq<V>,
    column: Seq<u8>,
    a: Seq<usize>,
    b: Seq<usize>,
    bin: int,
)
    requires
        crate::exact::exact(worth),
        a.to_multiset() == b.to_multiset(),
    ensures
        worth(row_sum(values, a)) == worth(row_sum(values, b)),
        worth(bin_sum(values, column, a, bin)) == worth(bin_sum(values, column, b, bin)),
    decreases a.len(),
{
    broadcast use vstd::multiset::group_multiset_axioms;

    a.to_multiset_ensures();
    b.to_multiset_ensures();
    assert(a.len() == b.len());
    if a.len() == 0 {
        assert(a =~= b);
    } else {
        let fewer = a.drop_last();
        let r = a.last();
        assert(a =~= fewer.push(r));
        fewer.to_multiset_ensures();
        assert(a.contains(a[a.len() - 1]));
        assert(b.to_multiset().count(r) > 0);
        let i = choose|i: int| 0 <= i < b.len() && b[i] == r;
        let rest = b.remove(i);
        assert(rest.to_multiset() =~= fewer.to_multiset());
        lemma_sums_in_any_order(worth, values, column, fewer, rest, bin);
        let (front, back) = (b.take(i), b.skip(i + 1));
        assert(b =~= front.push(r) + back);
        assert(rest =~= front + back);
        lemma_row_sums_add_up(worth, values, front.push(r), back);
        lemma_row_sums_add_up(worth, values, front, back);
        lemma_row_sum_push(values, front, r);
        lemma_row_sum_push(values, fewer, r);
        law_bin_sums_add_up(worth, values, column, front.push(r), back, bin, r);
        law_bin_sums_add_up(worth, values, column, front, back, bin, r);
        lemma_bin_sum_push(values, column, front, r, bin);
        lemma_bin_sum_push(values, column, fewer, r, bin);
    }
}

proof fn lemma_row_sums_add_up<V: Number>(
    worth: spec_fn(V) -> real,
    values: Seq<V>,
    a: Seq<usize>,
    b: Seq<usize>,
)
    requires
        crate::exact::exact(worth),
    ensures
        worth(row_sum(values, a + b)) == worth(row_sum(values, a)) + worth(row_sum(values, b)),
{
    let both = a + b;
    let (x, y) = (
        Seq::new(a.len(), |i: int| values[a[i] as int]),
        Seq::new(b.len(), |i: int| values[b[i] as int]),
    );
    assert(Seq::new(both.len(), |i: int| values[both[i] as int]) =~= x + y);
    crate::exact::law_totals_add_up(worth, x, y, crate::number::small(0));
}

} // verus!
