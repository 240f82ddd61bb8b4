//! Histograms for several outputs: per bin of a feature, the sums over the rows
//! that fall into it, one pair of sums per output.

use crate::number::Number;
use crate::tree::dataset::BinnedDataset;
use crate::tree::histogram::{BinEntry, NUM_BINS};
use vstd::prelude::*;

verus! {

/// One bin: the number of rows, and the sums `[g0, h0, g1, h1, ..]` of the
/// gradients and hessians of each output.
#[verifier::ext_equal]
pub struct Bin<V> {
    /// The number of rows.
    pub count: u32,
    /// The sums.
    pub sums: Seq<V>,
}

/// One bin of a [`VectorHistogram`].
#[derive(Debug, Clone)]
struct VectorBin<V> {
    count: u32,
    sums: Vec<V>,
}

impl<V> VectorBin<V> {
    spec fn model(self) -> Bin<V> {
        Bin { count: self.count, sums: self.sums@ }
    }
}

/// The histogram of one feature, for several outputs.
#[derive(Debug, Clone)]
pub struct VectorHistogram<V> {
    num_outputs: usize,
    bins: Vec<VectorBin<V>>,
}

impl<V> View for VectorHistogram<V> {
    type V = Seq<Bin<V>>;

    closed spec fn view(&self) -> Seq<Bin<V>> {
        Seq::new(self.bins.len() as nat, |b: int| self.bins[b].model())
    }
}

/// Element by element, `a` plus `b`.
pub open spec fn added<V: Number>(a: Seq<V>, b: Seq<V>) -> Seq<V> {
    Seq::new(a.len(), |i: int| crate::number::plus(a[i], b[i]))
}

/// Element by element, `a` minus `b`.
pub open spec fn subtracted<V: Number>(a: Seq<V>, b: Seq<V>) -> Seq<V> {
    Seq::new(a.len(), |i: int| crate::number::minus(a[i], b[i]))
}

/// `n` zeros.
pub open spec fn zeros<V: Number>(n: nat) -> Seq<V> {
    Seq::new(n, |i: int| crate::number::small::<V>(0))
}

/// The gradients and hessians of one row, in turn.
pub open spec fn interleaved<V>(gradients: Seq<V>, hessians: Seq<V>) -> Seq<V> {
    Seq::new(
        2 * gradients.len(),
        |i: int|
            if i % 2 == 0 {
                gradients[i / 2]
            } else {
                hessians[i / 2]
            },
    )
}

/// A histogram with a pair of sums per output in each bin.
pub open spec fn is_vector_histogram<V>(bins: Seq<Bin<V>>, num_outputs: nat) -> bool {
    &&& bins.len() == NUM_BINS
    &&& forall|b: int| 0 <= b < bins.len() ==> (#[trigger] bins[b]).sums.len() == 2 * num_outputs
}

/// The counts of a histogram.
pub open spec fn counts_only<V>(bins: Seq<Bin<V>>) -> Seq<BinEntry<()>> {
    Seq::new(
        bins.len(),
        |b: int| BinEntry { sum_gradients: (), sum_hessians: (), count: bins[b].count },
    )
}

/// The sums over the first `n` bins.
pub open spec fn sums_below<V: Number>(bins: Seq<Bin<V>>, num_outputs: nat, n: int) -> Seq<V>
    decreases n,
{
    if n <= 0 {
        zeros(2 * num_outputs)
    } else {
        added(sums_below(bins, num_outputs, n - 1), bins[n - 1].sums)
    }
}

/// The entries of row `r` in a buffer with `k` entries per row.
pub open spec fn row_part<V>(buffer: Seq<V>, k: nat, r: int) -> Seq<V> {
    Seq::new(k, |j: int| buffer[r * k + j])
}

/// The bin `b` of the histogram of `rows`, added up in the order of `rows`.
pub open spec fn bin_of<V: Number>(
    gradients: Seq<V>,
    hessians: Seq<V>,
    num_outputs: nat,
    column: Seq<u8>,
    rows: Seq<usize>,
    b: int,
) -> Bin<V>
    decreases rows.len(),
{
    if rows.len() == 0 {
        Bin { count: 0, sums: zeros(2 * num_outputs) }
    } else {
        let before = bin_of(gradients, hessians, num_outputs, column, rows.drop_last(), b);
        let r = rows.last() as int;
        if column[r] == b {
            Bin {
                count: (before.count + 1) as u32,
                sums: added(
                    before.sums,
                    interleaved(
                        row_part(gradients, num_outputs, r),
                        row_part(hessians, num_outputs, r),
                    ),
                ),
            }
        } else {
            before
        }
    }
}

/// `bins` is the histogram of `rows`.
pub open spec fn is_histogram_of<V: Number>(
    bins: Seq<Bin<V>>,
    gradients: Seq<V>,
    hessians: Seq<V>,
    num_outputs: nat,
    column: Seq<u8>,
    rows: Seq<usize>,
) -> bool {
    &&& bins.len() == NUM_BINS
    &&& forall|b: int|
        0 <= b < NUM_BINS ==> (#[trigger] bins[b]) == bin_of(
            gradients,
            hessians,
            num_outputs,
            column,
            rows,
            b,
        )
}

/// `r` is `parent` less `child`, bin by bin.
pub open spec fn is_bin_difference<V: Number>(
    r: Seq<Bin<V>>,
    parent: Seq<Bin<V>>,
    child: Seq<Bin<V>>,
) -> bool {
    &&& r.len() == NUM_BINS
    &&& forall|b: int|
        0 <= b < NUM_BINS ==> (#[trigger] r[b]) == (Bin {
            count: (parent[b].count - child[b].count) as u32,
            sums: subtracted(parent[b].sums, child[b].sums),
        })
}

/// The counts and the number of sums of the histogram of rows.
pub proof fn lemma_bin_of<V: Number>(
    gradients: Seq<V>,
    hessians: Seq<V>,
    num_outputs: nat,
    column: Seq<u8>,
    rows: Seq<usize>,
    b: int,
)
    requires
        rows.len() <= u32::MAX,
    ensures
        bin_of(gradients, hessians, num_outputs, column, rows, b).count
            == crate::tree::histogram::bin_count(column, rows, b),
        crate::tree::histogram::bin_count(column, rows, b) <= rows.len(),
        bin_of(gradients, hessians, num_outputs, column, rows, b).sums.len() == 2 * num_outputs,
    decreases rows.len(),
{
    if rows.len() > 0 {
        lemma_bin_of(gradients, hessians, num_outputs, column, rows.drop_last(), b);
    }
}

/// Adds `b` to `a`, element by element.
fn add_into<V: Number>(a: &mut Vec<V>, b: &[V])
    requires
        crate::number::arithmetic::<V>(),
        old(a).len() == b.len(),
    ensures
        final(a)@ == added(old(a)@, b@),
{
    let ghost start = a@;
    let mut i: usize = 0;
    while i < b.len()
        invariant
            crate::number::arithmetic::<V>(),
            start.len() == b.len(),
            a.len() == b.len(),
            i <= b.len(),
            forall|k: int|
                0 <= k < a.len() ==> #[trigger] a[k] == (if k < i {
                    crate::number::plus(start[k], b[k])
                } else {
                    start[k]
                }),
        decreases b.len() - i,
    {
        let x: V = a[i];
        a.set(i, x + b[i]);
        i = i + 1;
    }
    assert(a@ =~= added(start, b@));
}

/// A list of zeros.
pub fn zero_list<V: Number>(n: usize) -> (r: Vec<V>)
    requires
        crate::number::arithmetic::<V>(),
    ensures
        r@ == zeros::<V>(n as nat),
{
    let mut list: Vec<V> = Vec::new();
    let mut i: usize = 0;
    while i < n
        invariant
            crate::number::arithmetic::<V>(),
            i <= n,
            list@ == zeros::<V>(i as nat),
        decreases n - i,
    {
        list.push(V::from(0u8));
        i = i + 1;
        assert(list@ =~= zeros::<V>(i as nat));
    }
    list
}

impl<V> VectorHistogram<V> {
    /// The number of outputs.
    pub closed spec fn outputs(&self) -> nat {
        self.num_outputs as nat
    }

    /// Every bin has a pair of sums per output.
    pub open spec fn wf(&self) -> bool {
        is_vector_histogram(self@, self.outputs())
    }
}

impl<V: Number> VectorHistogram<V> {
    /// A histogram of no rows.
    pub fn new(num_outputs: usize) -> (r: Self)
        requires
            crate::number::arithmetic::<V>(),
            2 * num_outputs <= usize::MAX,
        ensures
            r.wf(),
            r.outputs() == num_outputs,
            forall|b: int|
                0 <= b < NUM_BINS ==> (#[trigger] r@[b]) == (Bin {
                    count: 0,
                    sums: zeros::<V>(2 * num_outputs as nat),
                }),
    {
        let mut bins: Vec<VectorBin<V>> = Vec::new();
        let mut b: usize = 0;
        while b < NUM_BINS
            invariant
                crate::number::arithmetic::<V>(),
                2 * num_outputs <= usize::MAX,
                b <= NUM_BINS,
                bins.len() == b,
                forall|k: int|
                    0 <= k < b ==> (#[trigger] bins[k]).model() == (Bin {
                        count: 0,
                        sums: zeros::<V>(2 * num_outputs as nat),
                    }),
            decreases NUM_BINS - b,
        {
            bins.push(VectorBin { count: 0, sums: zero_list(2 * num_outputs) });
            b = b + 1;
        }
        let r = VectorHistogram { num_outputs, bins };
        assert forall|b: int| 0 <= b < NUM_BINS implies (#[trigger] r@[b]) == (Bin {
            count: 0,
            sums: zeros::<V>(2 * num_outputs as nat),
        }) by {
            assert(bins[b].model() == r@[b]);
        }
        r
    }

    /// The number of outputs.
    pub fn num_outputs(&self) -> (r: usize)
        ensures
            r == self.outputs(),
    {
        self.num_outputs
    }

    /// Adds one row: a gradient and a hessian per output.
    pub fn accumulate(&mut self, bin: u8, gradients: &[V], hessians: &[V])
        requires
            crate::number::arithmetic::<V>(),
            old(self).wf(),
            gradients.len() == old(self).outputs(),
            hessians.len() == old(self).outputs(),
            2 * old(self).outputs() <= usize::MAX,
            old(self)@[bin as int].count < u32::MAX,
        ensures
            final(self).outputs() == old(self).outputs(),
            final(self)@ == old(self)@.update(
                bin as int,
                Bin {
                    count: (old(self)@[bin as int].count + 1) as u32,
                    sums: added(
                        old(self)@[bin as int].sums,
                        interleaved(gradients@, hessians@),
                    ),
                },
            ),
            final(self).wf(),
    {
        let ghost start = self@;
        let n: usize = self.num_outputs;
        let mut row: Vec<V> = Vec::new();
        let mut k: usize = 0;
        while k < n
            invariant
                k <= n,
                gradients.len() == n,
                hessians.len() == n,
                row.len() == 2 * k,
                forall|i: int|
                    0 <= i < row.len() ==> #[trigger] row[i] == (if i % 2 == 0 {
                        gradients[i / 2]
                    } else {
                        hessians[i / 2]
                    }),
            decreases n - k,
        {
            row.push(gradients[k]);
            row.push(hessians[k]);
            k = k + 1;
        }
        assert(row@ =~= interleaved(gradients@, hessians@));
        let b: usize = bin as usize;
        assert(self.bins[b as int].model() == self@[b as int]);
        let mut sums: Vec<V> = Vec::new();
        let mut i: usize = 0;
        while i < self.bins[b].sums.len()
            invariant
                b < self.bins.len(),
                i <= self.bins[b as int].sums.len(),
                sums@ == self.bins[b as int].sums@.take(i as int),
            decreases self.bins[b as int].sums.len() - i,
        {
            sums.push(self.bins[b].sums[i]);
            i = i + 1;
            assert(sums@ =~= self.bins[b as int].sums@.take(i as int));
        }
        assert(sums@ =~= self.bins[b as int].sums@);
        add_into(&mut sums, row.as_slice());
        let count: u32 = self.bins[b].count + 1;
        let ghost entry = Bin { count, sums: sums@ };
        self.bins.set(b, VectorBin { count, sums });
        assert(self@ =~= start.update(b as int, entry));
    }

    /// The number of rows in a bin.
    pub fn get_count(&self, bin: u8) -> (r: u32)
        requires
            self.wf(),
        ensures
            r == self@[bin as int].count,
    {
        assert(self.bins[bin as int].model() == self@[bin as int]);
        self.bins[bin as usize].count
    }

    /// The sums of one output in a bin.
    pub fn get_output_stats(&self, bin: u8, output_idx: usize) -> (r: (V, V))
        requires
            self.wf(),
            output_idx < self.outputs(),
            2 * self.outputs() <= usize::MAX,
        ensures
            r.0 == self@[bin as int].sums[2 * output_idx],
            r.1 == self@[bin as int].sums[2 * output_idx + 1],
    {
        assert(self.bins[bin as int].model() == self@[bin as int]);
        let sums = &self.bins[bin as usize].sums;
        (sums[2 * output_idx], sums[2 * output_idx + 1])
    }

    /// The number of rows in all bins.
    pub fn total_count(&self) -> (r: u32)
        requires
            self.wf(),
            crate::tree::histogram::count_below(counts_only(self@), NUM_BINS as int) <= u32::MAX,
        ensures
            r == crate::tree::histogram::count_below(counts_only(self@), NUM_BINS as int),
    {
        let ghost plain = counts_only(self@);
        let mut count: u32 = 0;
        let mut b: usize = 0;
        while b < NUM_BINS
            invariant
                self.wf(),
                plain == counts_only(self@),
                crate::tree::histogram::count_below(plain, NUM_BINS as int) <= u32::MAX,
                b <= NUM_BINS,
                count == crate::tree::histogram::count_below(plain, b as int),
            decreases NUM_BINS - b,
        {
            proof {
                crate::tree::split::lemma_count_below_grows(plain, b + 1, NUM_BINS as int);
            }
            count = count + self.get_count(b as u8);
            b = b + 1;
        }
        count
    }

    /// Adds the sums of a bin to a list of sums.
    pub fn add_bin(&self, bin: u8, sums: &mut Vec<V>)
        requires
            crate::number::arithmetic::<V>(),
            self.wf(),
            old(sums).len() == 2 * self.outputs(),
        ensures
            final(sums)@ == added(old(sums)@, self@[bin as int].sums),
    {
        assert(self.bins[bin as int].model() == self@[bin as int]);
        add_into(sums, self.bins[bin as usize].sums.as_slice());
    }

    /// The sums over all bins, `[g0, h0, g1, h1, ..]`.
    pub fn totals_all_outputs(&self) -> (r: Vec<V>)
        requires
            crate::number::arithmetic::<V>(),
            self.wf(),
            2 * self.outputs() <= usize::MAX,
        ensures
            r@ == sums_below(self@, self.outputs(), NUM_BINS as int),
            r.len() == 2 * self.outputs(),
    {
        let mut sums: Vec<V> = zero_list(2 * self.num_outputs);
        let mut b: usize = 0;
        while b < NUM_BINS
            invariant
                crate::number::arithmetic::<V>(),
                self.wf(),
                sums.len() == 2 * self.outputs(),
                b <= NUM_BINS,
                sums@ == sums_below(self@, self.outputs(), b as int),
            decreases NUM_BINS - b,
        {
            self.add_bin(b as u8, &mut sums);
            b = b + 1;
        }
        sums
    }

    /// The histogram of the rows of `parent` that are not among those of
    /// `child`, by subtraction.
    pub fn from_subtraction(parent: &Self, child: &Self) -> (r: Self)
        requires
            crate::number::arithmetic::<V>(),
            parent.wf(),
            child.wf(),
            parent.outputs() == child.outputs(),
            forall|b: int|
                0 <= b < NUM_BINS ==> (#[trigger] child@[b]).count <= parent@[b].count,
        ensures
            r.wf(),
            r.outputs() == parent.outputs(),
            is_bin_difference(r@, parent@, child@),
    {
        let mut bins: Vec<VectorBin<V>> = Vec::new();
        let mut b: usize = 0;
        while b < NUM_BINS
            invariant
                crate::number::arithmetic::<V>(),
                parent.wf(),
                child.wf(),
                parent.outputs() == child.outputs(),
                forall|b: int|
                    0 <= b < NUM_BINS ==> (#[trigger] child@[b]).count <= parent@[b].count,
                b <= NUM_BINS,
                bins.len() == b,
                forall|k: int|
                    0 <= k < b ==> (#[trigger] bins[k]).model() == (Bin {
                        count: (parent@[k].count - child@[k].count) as u32,
                        sums: subtracted(parent@[k].sums, child@[k].sums),
                    }),
            decreases NUM_BINS - b,
        {
            assert(parent.bins[b as int].model() == parent@[b as int]);
            assert(child.bins[b as int].model() == child@[b as int]);
            let p = &parent.bins[b].sums;
            let c = &child.bins[b].sums;
            let mut sums: Vec<V> = Vec::new();
            let mut i: usize = 0;
            while i < p.len()
                invariant
                    crate::number::arithmetic::<V>(),
                    p.len() == c.len(),
                    i <= p.len(),
                    sums@ == subtracted(p@, c@).take(i as int),
                decreases p.len() - i,
            {
                sums.push(p[i] - c[i]);
                i = i + 1;
                assert(sums@ =~= subtracted(p@, c@).take(i as int));
            }
            assert(sums@ =~= subtracted(p@, c@));
            bins.push(VectorBin { count: parent.bins[b].count - child.bins[b].count, sums });
            b = b + 1;
        }
        let r = VectorHistogram { num_outputs: parent.num_outputs, bins };
        assert forall|b: int| 0 <= b < NUM_BINS implies (#[trigger] r@[b]) == (Bin {
            count: (parent@[b].count - child@[b].count) as u32,
            sums: subtracted(parent@[b].sums, child@[b].sums),
        }) by {
            assert(bins[b].model() == r@[b]);
        }
        assert forall|b: int| 0 <= b < r@.len() implies (#[trigger] r@[b]).sums.len() == 2
            * r.outputs() by {
            assert(parent@[b].sums.len() == 2 * parent.outputs());
        }
        r
    }
}

/// The histograms of all features at one node, for several outputs.
#[derive(Debug, Clone)]
pub struct VectorNodeHistograms<V> {
    num_outputs: usize,
    histograms: Vec<VectorHistogram<V>>,
}

impl<V> View for VectorNodeHistograms<V> {
    type V = Seq<Seq<Bin<V>>>;

    closed spec fn view(&self) -> Seq<Seq<Bin<V>>> {
        Seq::new(self.histograms.len() as nat, |f: int| self.histograms[f]@)
    }
}

/// The counts of all histograms are those of `rows`.
pub open spec fn all_count_rows<V>(
    h: Seq<Seq<Bin<V>>>,
    columns: Seq<Seq<u8>>,
    rows: Seq<usize>,
) -> bool {
    &&& h.len() == columns.len()
    &&& forall|f: int|
        0 <= f < h.len() ==> crate::tree::histogram::counts_rows(
            counts_only(#[trigger] h[f]),
            columns[f],
            rows,
        )
}

/// `h` holds the histograms of `rows`, feature by feature.
pub open spec fn are_histograms_of<V: Number>(
    h: Seq<Seq<Bin<V>>>,
    gradients: Seq<V>,
    hessians: Seq<V>,
    num_outputs: nat,
    columns: Seq<Seq<u8>>,
    rows: Seq<usize>,
) -> bool {
    &&& h.len() == columns.len()
    &&& forall|f: int|
        0 <= f < h.len() ==> is_histogram_of(
            #[trigger] h[f],
            gradients,
            hessians,
            num_outputs,
            columns[f],
            rows,
        )
}

/// `r` is `parent` less `child`, feature by feature.
pub open spec fn are_bin_differences<V: Number>(
    r: Seq<Seq<Bin<V>>>,
    parent: Seq<Seq<Bin<V>>>,
    child: Seq<Seq<Bin<V>>>,
) -> bool {
    &&& r.len() == parent.len()
    &&& forall|f: int|
        0 <= f < r.len() ==> is_bin_difference(#[trigger] r[f], parent[f], child[f])
}

impl<V> VectorNodeHistograms<V> {
    /// The number of outputs.
    pub closed spec fn outputs(&self) -> nat {
        self.num_outputs as nat
    }

    /// Every histogram has a pair of sums per output in each bin.
    pub closed spec fn wf(&self) -> bool {
        forall|f: int|
            0 <= f < self.histograms.len() ==> (#[trigger] self.histograms[f]).wf()
                && self.histograms[f].outputs() == self.outputs()
    }
}

impl<V: Number> VectorNodeHistograms<V> {
    /// The number of features.
    pub fn num_features(&self) -> (r: usize)
        ensures
            r == self@.len(),
    {
        self.histograms.len()
    }

    /// The histogram of one feature.
    pub fn get(&self, feature_idx: usize) -> (r: &VectorHistogram<V>)
        requires
            self.wf(),
            feature_idx < self@.len(),
        ensures
            r@ == self@[feature_idx as int],
            r.wf(),
            r.outputs() == self.outputs(),
    {
        &self.histograms[feature_idx]
    }

    /// Histograms of the given features.
    pub fn from_histograms(num_outputs: usize, histograms: Vec<VectorHistogram<V>>) -> (r: Self)
        requires
            forall|f: int|
                0 <= f < histograms.len() ==> (#[trigger] histograms[f]).wf()
                    && histograms[f].outputs() == num_outputs,
        ensures
            r.wf(),
            r.outputs() == num_outputs,
            r@.len() == histograms.len(),
            forall|f: int| 0 <= f < histograms.len() ==> #[trigger] r@[f] == histograms[f]@,
    {
        VectorNodeHistograms { num_outputs, histograms }
    }

    /// The histograms of the given rows.
    pub fn build(
        dataset: &BinnedDataset,
        num_outputs: usize,
        gradients: &[V],
        hessians: &[V],
        rows: &[usize],
    ) -> (r: Self)
        requires
            crate::number::arithmetic::<V>(),
            rows.len() <= u32::MAX,
            2 * num_outputs <= usize::MAX,
            gradients.len() == dataset.rows() * num_outputs,
            hessians.len() == dataset.rows() * num_outputs,
            forall|i: int| 0 <= i < rows.len() ==> (#[trigger] rows[i]) < dataset.rows(),
        ensures
            r.wf(),
            r.outputs() == num_outputs,
            are_histograms_of(
                r@,
                gradients@,
                hessians@,
                num_outputs as nat,
                dataset@,
                rows@,
            ),
            all_count_rows(r@, dataset@, rows@),
    {
        let num_features: usize = dataset.num_features();
        let mut histograms: Vec<VectorHistogram<V>> = Vec::new();
        let mut f: usize = 0;
        while f < num_features
            invariant
                crate::number::arithmetic::<V>(),
                num_features == dataset@.len(),
                rows.len() <= u32::MAX,
                2 * num_outputs <= usize::MAX,
                gradients.len() == dataset.rows() * num_outputs,
                hessians.len() == dataset.rows() * num_outputs,
                forall|i: int| 0 <= i < rows.len() ==> (#[trigger] rows[i]) < dataset.rows(),
                f <= num_features,
                histograms.len() == f,
                forall|k: int|
                    0 <= k < f ==> (#[trigger] histograms[k]).wf() && histograms[k].outputs()
                        == num_outputs && is_histogram_of(
                        histograms[k]@,
                        gradients@,
                        hessians@,
                        num_outputs as nat,
                        dataset@[k],
                        rows@,
                    ),
            decreases num_features - f,
        {
            let column = dataset.feature_column(f);
            histograms.push(build_one(column, num_outputs, gradients, hessians, rows));
            f = f + 1;
        }
        let r = VectorNodeHistograms { num_outputs, histograms };
        assert forall|f: int| 0 <= f < r@.len() implies crate::tree::histogram::counts_rows(
            counts_only(#[trigger] r@[f]),
            dataset@[f],
            rows@,
        ) by {
            assert(r@[f] == histograms[f]@);
            assert forall|b: int| 0 <= b < NUM_BINS implies (#[trigger] counts_only(
                r@[f],
            )[b]).count == crate::tree::histogram::bin_count(dataset@[f], rows@, b) by {
                assert(r@[f][b] == bin_of(
                    gradients@,
                    hessians@,
                    num_outputs as nat,
                    dataset@[f],
                    rows@,
                    b,
                ));
                lemma_bin_of(gradients@, hessians@, num_outputs as nat, dataset@[f], rows@, b);
            }
        }
        r
    }

    /// The histograms of the rows of `parent` that are not among those of
    /// `child`, by subtraction.
    pub fn from_subtraction(parent: &Self, child: &Self) -> (r: Self)
        requires
            crate::number::arithmetic::<V>(),
            parent.wf(),
            child.wf(),
            parent.outputs() == child.outputs(),
            parent@.len() == child@.len(),
            forall|f: int, b: int|
                0 <= f < parent@.len() && 0 <= b < NUM_BINS ==> (#[trigger] child@[f][b]).count
                    <= parent@[f][b].count,
        ensures
            r.wf(),
            r.outputs() == parent.outputs(),
            are_bin_differences(r@, parent@, child@),
    {
        let mut histograms: Vec<VectorHistogram<V>> = Vec::new();
        let mut f: usize = 0;
        while f < parent.histograms.len()
            invariant
                crate::number::arithmetic::<V>(),
                parent.wf(),
                child.wf(),
                parent.outputs() == child.outputs(),
                parent@.len() == child@.len(),
                parent@.len() == parent.histograms.len(),
                forall|g: int, b: int|
                    0 <= g < parent@.len() && 0 <= b < NUM_BINS ==> (#[trigger] child@[g][b]).count
                        <= parent@[g][b].count,
                f <= parent.histograms.len(),
                histograms.len() == f,
                forall|k: int|
                    0 <= k < f ==> (#[trigger] histograms[k]).wf() && histograms[k].outputs()
                        == parent.outputs() && is_bin_difference(
                        histograms[k]@,
                        parent@[k],
                        child@[k],
                    ),
            decreases parent.histograms.len() - f,
        {
            let p = parent.get(f);
            let c = child.get(f);
            assert forall|b: int| 0 <= b < NUM_BINS implies (#[trigger] c@[b]).count
                <= p@[b].count by {
                assert(c@[b] == child@[f as int][b]);
            }
            histograms.push(VectorHistogram::from_subtraction(p, c));
            f = f + 1;
        }
        VectorNodeHistograms { num_outputs: parent.num_outputs, histograms }
    }
}

/// The histogram of the given rows of a feature.
fn build_one<V: Number>(
    column: &[u8],
    num_outputs: usize,
    gradients: &[V],
    hessians: &[V],
    rows: &[usize],
) -> (r: VectorHistogram<V>)
    requires
        crate::number::arithmetic::<V>(),
        rows.len() <= u32::MAX,
        2 * num_outputs <= usize::MAX,
        gradients.len() == column.len() * num_outputs,
        hessians.len() == column.len() * num_outputs,
        forall|i: int| 0 <= i < rows.len() ==> (#[trigger] rows[i]) < column.len(),
    ensures
        r.wf(),
        r.outputs() == num_outputs,
        is_histogram_of(
            r@,
            gradients@,
            hessians@,
            num_outputs as nat,
            column@,
            rows@,
        ),
{
    let mut h: VectorHistogram<V> = VectorHistogram::new(num_outputs);
    let mut n: usize = 0;
    assert(rows@.take(0) =~= Seq::<usize>::empty());
    while n < rows.len()
        invariant
            crate::number::arithmetic::<V>(),
            n <= rows.len() <= u32::MAX,
            2 * num_outputs <= usize::MAX,
            gradients.len() == column.len() * num_outputs,
            hessians.len() == column.len() * num_outputs,
            forall|i: int| 0 <= i < rows.len() ==> (#[trigger] rows[i]) < column.len(),
            h.wf(),
            h.outputs() == num_outputs,
            is_histogram_of(
                h@,
                gradients@,
                hessians@,
                num_outputs as nat,
                column@,
                rows@.take(n as int),
            ),
        decreases rows.len() - n,
    {
        let row: usize = rows[n];
        let ghost seen = rows@.take(n as int);
        let ghost now = rows@.take(n + 1);
        proof {
            assert(now.drop_last() =~= seen);
            assert(now.last() == row);
            lemma_bin_of(
                gradients@,
                hessians@,
                num_outputs as nat,
                column@,
                seen,
                column[row as int] as int,
            );
            assert(row * num_outputs + num_outputs <= column.len() * num_outputs)
                by (nonlinear_arith)
                requires
                    row < column.len(),
                    0 <= num_outputs,
            ;
            assert(0 <= row * num_outputs) by (nonlinear_arith)
                requires
                    0 <= row,
                    0 <= num_outputs,
            ;
        }
        let offset: usize = row * num_outputs;
        let mut g: Vec<V> = Vec::new();
        let mut hs: Vec<V> = Vec::new();
        let mut k: usize = 0;
        while k < num_outputs
            invariant
                k <= num_outputs,
                offset == row * num_outputs,
                offset + num_outputs <= gradients.len(),
                offset + num_outputs <= hessians.len(),
                g.len() == k,
                hs.len() == k,
                forall|j: int| 0 <= j < k ==> #[trigger] g[j] == gradients[offset + j],
                forall|j: int| 0 <= j < k ==> #[trigger] hs[j] == hessians[offset + j],
            decreases num_outputs - k,
        {
            g.push(gradients[offset + k]);
            hs.push(hessians[offset + k]);
            k = k + 1;
        }
        proof {
            assert(g@ =~= row_part(gradients@, num_outputs as nat, row as int));
            assert(hs@ =~= row_part(hessians@, num_outputs as nat, row as int));
        }
        let ghost before = h@;
        h.accumulate(column[row], g.as_slice(), hs.as_slice());
        proof {
            assert forall|b: int| 0 <= b < NUM_BINS implies (#[trigger] h@[b]) == bin_of(
                gradients@,
                hessians@,
                num_outputs as nat,
                column@,
                now,
                b,
            ) by {
                assert(before[b] == bin_of(
                    gradients@,
                    hessians@,
                    num_outputs as nat,
                    column@,
                    seen,
                    b,
                ));
            }
        }
        n = n + 1;
    }
    assert(rows@.take(n as int) =~= rows@);
    h
}

/// The sums of a bin over two lists of rows add up to those over both, output by
/// output; a row counts with its gradients and hessians for its own bin and for
/// no other.
pub proof fn law_vector_bins_add_up<V: Number>(
    worth: spec_fn(V) -> real,
    gradients: Seq<V>,
    hessians: Seq<V>,
    num_outputs: nat,
    column: Seq<u8>,
    a: Seq<usize>,
    b: Seq<usize>,
    bin: int,
    k: int,
    row: usize,
)
    requires
        crate::exact::exact(worth),
        0 <= k < num_outputs,
        a.len() + b.len() <= u32::MAX,
    ensures
        ({
            let at = |rows: Seq<usize>|
                bin_of(gradients, hessians, num_outputs, column, rows, bin);
            let place = row as int * num_outputs + k;
            &&& at(a + b).count == at(a).count + at(b).count
            &&& at(a).sums.len() == 2 * num_outputs
            &&& at(a).count <= a.len()
            &&& worth(at(a + b).sums[2 * k]) == worth(at(a).sums[2 * k]) + worth(
                at(b).sums[2 * k],
            )
            &&& worth(at(a + b).sums[2 * k + 1]) == worth(at(a).sums[2 * k + 1]) + worth(
                at(b).sums[2 * k + 1],
            )
            &&& column[row as int] == bin ==> worth(at(seq![row]).sums[2 * k]) == worth(
                gradients[place],
            ) && worth(at(seq![row]).sums[2 * k + 1]) == worth(hessians[place])
            &&& column[row as int] != bin ==> worth(at(seq![row]).sums[2 * k]) == 0real
                && worth(at(seq![row]).sums[2 * k + 1]) == 0real
        }),
    decreases b.len(),
{
    lemma_bin_step(worth, gradients, hessians, num_outputs, column, a, bin, k);
    lemma_bin_step(worth, gradients, hessians, num_outputs, column, seq![row], bin, k);
    assert(seq![row].drop_last() =~= Seq::<usize>::empty());
    assert(seq![row].last() == row);
    let none = Seq::<usize>::empty();
    lemma_bin_step(worth, gradients, hessians, num_outputs, column, none, bin, k);
    if b.len() == 0 {
        assert(a + b =~= a);
        assert(b =~= none);
    } else {
        let fewer = b.drop_last();
        law_vector_bins_add_up(
            worth,
            gradients,
            hessians,
            num_outputs,
            column,
            a,
            fewer,
            bin,
            k,
            row,
        );
        assert((a + b).drop_last() =~= a + fewer);
        assert((a + b).last() == b.last());
        lemma_bin_step(worth, gradients, hessians, num_outputs, column, b, bin, k);
        lemma_bin_step(worth, gradients, hessians, num_outputs, column, a + b, bin, k);
        lemma_bin_step(worth, gradients, hessians, num_outputs, column, a + fewer, bin, k);
        lemma_bin_step(worth, gradients, hessians, num_outputs, column, fewer, bin, k);
    }
}

/// A bin has two sums per output; one more row adds to them, if it is in the bin.
proof fn lemma_bin_step<V: Number>(
    worth: spec_fn(V) -> real,
    gradients: Seq<V>,
    hessians: Seq<V>,
    num_outputs: nat,
    column: Seq<u8>,
    rows: Seq<usize>,
    bin: int,
    k: int,
)
    requires
        crate::exact::exact(worth),
        0 <= k < num_outputs,
        rows.len() <= u32::MAX,
    ensures
        ({
            let at = bin_of(gradients, hessians, num_outputs, column, rows, bin);
            &&& at.sums.len() == 2 * num_outputs
            &&& at.count <= rows.len()
            &&& rows.len() == 0 ==> at.count == 0 && worth(at.sums[2 * k]) == 0real && worth(
                at.sums[2 * k + 1],
            ) == 0real
            &&& rows.len() > 0 ==> {
                let before = bin_of(
                    gradients,
                    hessians,
                    num_outputs,
                    column,
                    rows.drop_last(),
                    bin,
                );
                let r = rows.last() as int;
                if column[r] == bin {
                    &&& at.count == before.count + 1
                    &&& worth(at.sums[2 * k]) == worth(before.sums[2 * k]) + worth(
                        gradients[r * num_outputs + k],
                    )
                    &&& worth(at.sums[2 * k + 1]) == worth(before.sums[2 * k + 1]) + worth(
                        hessians[r * num_outputs + k],
                    )
                } else {
                    at == before
                }
            }
        }),
    decreases rows.len(),
{
    if rows.len() > 0 {
        lemma_bin_step(
            worth,
            gradients,
            hessians,
            num_outputs,
            column,
            rows.drop_last(),
            bin,
            k,
        );
        let r = rows.last() as int;
        let own = interleaved(
            row_part(gradients, num_outputs, r),
            row_part(hessians, num_outputs, r),
        );
        assert(own.len() == 2 * num_outputs);
        assert((2 * k) % 2 == 0 && (2 * k) / 2 == k);
        assert((2 * k + 1) % 2 == 1 && (2 * k + 1) / 2 == k);
        assert(own[2 * k] == gradients[r * num_outputs + k]);
        assert(own[2 * k + 1] == hessians[r * num_outputs + k]);
    }
}

/// A histogram less that of some of its rows is the histogram of the others.
pub proof fn law_vector_difference_is_of_the_others<V: Number>(
    worth: spec_fn(V) -> real,
    gradients: Seq<V>,
    hessians: Seq<V>,
    num_outputs: nat,
    column: Seq<u8>,
    some: Seq<usize>,
    others: Seq<usize>,
    all: Seq<Bin<V>>,
    part: Seq<Bin<V>>,
    rest: Seq<Bin<V>>,
    bin: int,
    k: int,
)
    requires
        crate::exact::exact(worth),
        is_histogram_of(all, gradients, hessians, num_outputs, column, some + others),
        is_histogram_of(part, gradients, hessians, num_outputs, column, some),
        is_bin_difference(rest, all, part),
        some.len() + others.len() <= u32::MAX,
        0 <= bin < NUM_BINS,
        0 <= k < num_outputs,
    ensures
        ({
            let right = bin_of(gradients, hessians, num_outputs, column, others, bin);
            &&& rest[bin].count == right.count
            &&& worth(rest[bin].sums[2 * k]) == worth(right.sums[2 * k])
            &&& worth(rest[bin].sums[2 * k + 1]) == worth(right.sums[2 * k + 1])
        }),
{
    law_vector_bins_add_up(
        worth,
        gradients,
        hessians,
        num_outputs,
        column,
        some,
        others,
        bin,
        k,
        0,
    );
    lemma_bin_step(worth, gradients, hessians, num_outputs, column, some + others, bin, k);
    lemma_bin_step(worth, gradients, hessians, num_outputs, column, some, bin, k);
}

/// The entries of one output in a buffer with `k` entries per row, row by row.
pub open spec fn output_of<V>(buffer: Seq<V>, k: nat, o: int) -> Seq<V> {
    Seq::new((usize::MAX + 1) as nat, |r: int| buffer[r * k + o])
}

/// The sums of a bin are, output by output, those of the gradients and hessians of
/// the output.
pub proof fn lemma_bin_of_output<V: Number>(
    gradients: Seq<V>,
    hessians: Seq<V>,
    k: nat,
    column: Seq<u8>,
    rows: Seq<usize>,
    b: int,
    o: int,
)
    requires
        0 <= o < k,
    ensures
        ({
            let sums = bin_of(gradients, hessians, k, column, rows, b).sums;
            &&& sums.len() == 2 * k
            &&& sums[2 * o] == crate::tree::histogram::bin_sum(
                output_of(gradients, k, o),
                column,
                rows,
                b,
            )
            &&& sums[2 * o + 1] == crate::tree::histogram::bin_sum(
                output_of(hessians, k, o),
                column,
                rows,
                b,
            )
        }),
    decreases rows.len(),
{
    if rows.len() > 0 {
        lemma_bin_of_output(gradients, hessians, k, column, rows.drop_last(), b, o);
        let r = rows.last() as int;
        let own = interleaved(row_part(gradients, k, r), row_part(hessians, k, r));
        assert((2 * o) % 2 == 0 && (2 * o) / 2 == o);
        assert((2 * o + 1) % 2 == 1 && (2 * o + 1) / 2 == o);
        assert(own[2 * o] == output_of(gradients, k, o)[r]);
        assert(own[2 * o + 1] == output_of(hessians, k, o)[r]);
    }
}

/// The sums of a histogram are, output by output, those over `rows`.
pub open spec fn output_sums<V: Number>(
    worth: spec_fn(V) -> real,
    bins: Seq<Bin<V>>,
    gradients: Seq<V>,
    hessians: Seq<V>,
    k: nat,
    column: Seq<u8>,
    rows: Seq<usize>,
    o: int,
) -> bool {
    forall|b: int|
        0 <= b < NUM_BINS ==> (#[trigger] bins[b]).sums.len() == 2 * k && worth(
            bins[b].sums[2 * o],
        ) == worth(
            crate::tree::histogram::bin_sum(output_of(gradients, k, o), column, rows, b),
        ) && worth(bins[b].sums[2 * o + 1]) == worth(
            crate::tree::histogram::bin_sum(output_of(hessians, k, o), column, rows, b),
        )
}

/// The sums over the first `n` bins are those of the rows with such a bin.
pub proof fn lemma_sums_below_are_of_rows<V: Number>(
    worth: spec_fn(V) -> real,
    bins: Seq<Bin<V>>,
    gradients: Seq<V>,
    hessians: Seq<V>,
    k: nat,
    column: Seq<u8>,
    rows: Seq<usize>,
    o: int,
    n: int,
)
    requires
        crate::exact::exact(worth),
        output_sums(worth, bins, gradients, hessians, k, column, rows, o),
        0 <= o < k,
        0 <= n <= NUM_BINS,
    ensures
        ({
            let sums = sums_below(bins, k, n);
            let under = crate::tree::histogram::rows_under(column, rows, n);
            &&& sums.len() == 2 * k
            &&& worth(sums[2 * o]) == worth(
                crate::tree::histogram::row_sum(output_of(gradients, k, o), under),
            )
            &&& worth(sums[2 * o + 1]) == worth(
                crate::tree::histogram::row_sum(output_of(hessians, k, o), under),
            )
        }),
    decreases n,
{
    let (g, h) = (output_of(gradients, k, o), output_of(hessians, k, o));
    crate::tree::histogram::lemma_rows_under(worth, g, column, rows, n - 1);
    crate::tree::histogram::lemma_rows_under(worth, h, column, rows, n - 1);
    if n > 0 {
        lemma_sums_below_are_of_rows(
            worth,
            bins,
            gradients,
            hessians,
            k,
            column,
            rows,
            o,
            n - 1,
        );
        assert(bins[n - 1].sums.len() == 2 * k);
    }
}

} // verus!
