//! Training data whose feature values have been sorted into bins.

use vstd::prelude::*;

verus! {

/// Rows of binned features, stored column by column.
#[derive(Debug)]
pub struct BinnedDataset {
    num_rows: usize,
    columns: Vec<Vec<u8>>,
}

impl View for BinnedDataset {
    type V = Seq<Seq<u8>>;

    /// The columns.
    closed spec fn view(&self) -> Seq<Seq<u8>> {
        Seq::new(self.columns.len() as nat, |f: int| self.columns[f]@)
    }
}

impl BinnedDataset {
    /// Every column has an entry for each row.
    #[verifier::type_invariant]
    spec fn wf(&self) -> bool {
        forall|f: int|
            0 <= f < self.columns.len() ==> (#[trigger] self.columns[f]).len() == self.num_rows
    }

    /// The number of rows.
    pub closed spec fn rows(&self) -> nat {
        self.num_rows as nat
    }

    /// Every column has an entry for each row.
    pub open spec fn rectangular(&self) -> bool {
        forall|f: int| 0 <= f < self@.len() ==> (#[trigger] self@[f]).len() == self.rows()
    }

    /// A dataset from its bins, given column by column.
    pub fn new(num_rows: usize, num_features: usize, features: &[u8]) -> (r: Self)
        requires
            features.len() == num_rows * num_features,
        ensures
            r.rows() == num_rows,
            r@.len() == num_features,
            r.rectangular(),
            forall|f: int, i: int|
                0 <= f < num_features && 0 <= i < num_rows ==> #[trigger] r@[f][i] == features[f
                    * num_rows + i],
    {
        let mut columns: Vec<Vec<u8>> = Vec::new();
        let mut f: usize = 0;
        while f < num_features
            invariant
                f <= num_features,
                features.len() == num_rows * num_features,
                columns.len() == f,
                forall|k: int|
                    0 <= k < f ==> (#[trigger] columns[k]).len() == num_rows && columns[k]@
                        == features@.subrange(k * num_rows, k * num_rows + num_rows),
            decreases num_features - f,
        {
            proof {
                assert(f * num_rows + num_rows <= num_rows * num_features) by (nonlinear_arith)
                    requires
                        f < num_features,
                        0 <= num_rows,
                ;
                assert(0 <= f * num_rows) by (nonlinear_arith)
                    requires
                        0 <= f,
                        0 <= num_rows,
                ;
            }
            let start: usize = f * num_rows;
            let mut column: Vec<u8> = Vec::new();
            let mut i: usize = 0;
            while i < num_rows
                invariant
                    i <= num_rows,
                    start + num_rows <= features.len(),
                    column@ == features@.subrange(start as int, start + i),
                decreases num_rows - i,
            {
                column.push(features[start + i]);
                i = i + 1;
                assert(column@ =~= features@.subrange(start as int, start + i));
            }
            columns.push(column);
            f = f + 1;
        }
        let r = BinnedDataset { num_rows, columns };
        assert forall|f: int, i: int| 0 <= f < num_features && 0 <= i < num_rows implies
            #[trigger] r@[f][i] == features[f * num_rows + i] by {
            assert(columns[f].len() == num_rows);
            assert(f * num_rows + num_rows <= num_rows * num_features) by (nonlinear_arith)
                requires
                    0 <= f < num_features,
                    0 <= num_rows,
            ;
            assert(0 <= f * num_rows) by (nonlinear_arith)
                requires
                    0 <= f,
                    0 <= num_rows,
            ;
        }
        r
    }

    /// The number of rows.
    pub fn num_rows(&self) -> (r: usize)
        ensures
            r == self.rows(),
            self.rectangular(),
    {
        proof {
            use_type_invariant(self);
        }
        self.num_rows
    }

    /// The number of features.
    pub fn num_features(&self) -> (r: usize)
        ensures
            r == self@.len(),
            self.rectangular(),
    {
        proof {
            use_type_invariant(self);
        }
        self.columns.len()
    }

    /// The bin of a feature in a row.
    pub fn get_bin(&self, row_idx: usize, feature_idx: usize) -> (r: u8)
        requires
            row_idx < self.rows(),
            feature_idx < self@.len(),
        ensures
            r == self@[feature_idx as int][row_idx as int],
    {
        proof {
            use_type_invariant(self);
        }
        self.columns[feature_idx][row_idx]
    }

    /// The bins of a feature in all rows.
    pub fn feature_column(&self, feature_idx: usize) -> (r: &[u8])
        requires
            feature_idx < self@.len(),
        ensures
            r@ == self@[feature_idx as int],
            r.len() == self.rows(),
    {
        proof {
            use_type_invariant(self);
        }
        self.columns[feature_idx].as_slice()
    }
}

} // verus!
