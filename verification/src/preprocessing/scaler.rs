//! Scaling of columns: by mean and standard deviation, to a range, or by median
//! and quartiles.

use crate::error::Result;
use crate::functions::Functions;
use crate::number::{
    clamp, highest_number, is_finite, lowest_number, magnitude, small_fraction, sum, Number,
};
use crate::preprocessing::table::{check_layout, check_transform, map_cells, read_column};
use vstd::prelude::*;

verus! {

/// A scaler learns statistics of the columns of a table and applies them to
/// tables with the same columns. Tables are stored row by row.
pub trait Scaler<V: Number> {
    /// What was learnt fits together.
    spec fn wf(&self) -> bool;

    /// A table of so many entries and columns can be scaled, or is refused.
    spec fn scalable(&self, len: nat, num_features: nat) -> bool;

    /// Learns the statistics of the columns of a table.
    fn fit<F: Functions<V>>(&mut self, data: &[V], num_features: usize, f: &F) -> (r: Result<()>)
        requires
            crate::number::arithmetic::<V>(),
            crate::functions::computes(f),
    ;

    /// Scales the columns of a table in place.
    fn transform(&self, data: &mut [V], num_features: usize) -> (r: Result<()>)
        requires
            crate::number::arithmetic::<V>(),
            self.scalable(old(data)@.len(), num_features as nat),
    ;

    /// Whether statistics have been learnt.
    fn is_fitted(&self) -> bool;
}

/// The mean of a column.
pub open spec fn mean_of<V: Number, F: Functions<V>>(f: &F, column: Seq<V>) -> V {
    crate::number::over(
        crate::number::total(column),
        crate::functions::count_of::<V, F>(f, column.len() as usize),
    )
}

/// The squares of the distances of the entries of a column from its mean.
pub open spec fn square_deviations<V: Number>(column: Seq<V>, mean: V) -> Seq<V> {
    Seq::new(
        column.len(),
        |i: int|
            crate::number::times(
                crate::number::minus(column[i], mean),
                crate::number::minus(column[i], mean),
            ),
    )
}

/// A scale, or one where the scale is next to nothing.
pub open spec fn usable_scale<V: Number>(scale: V) -> V {
    if crate::number::below(scale, crate::number::tenth_to::<V>(8)) {
        crate::number::small(1)
    } else {
        scale
    }
}

/// The standard deviation of a column; one, where it is next to nothing.
pub open spec fn std_of<V: Number, F: Functions<V>>(f: &F, column: Seq<V>) -> V {
    usable_scale(
        crate::functions::root_of(
            f,
            crate::number::over(
                crate::number::total(square_deviations(column, mean_of(f, column))),
                crate::functions::count_of::<V, F>(f, column.len() as usize),
            ),
        ),
    )
}

/// A number less a center, as a multiple of a scale.
pub open spec fn centered<V: Number>(v: V, center: V, scale: V) -> V {
    crate::number::over(crate::number::minus(v, center), scale)
}

/// The scaled entries of columns with the given centers and scales.
pub open spec fn centering<V: Number>(centers: Seq<V>, scales: Seq<V>) -> spec_fn(V, int) -> V {
    |v: V, col: int| centered(v, centers[col], scales[col])
}

/// Scales every column by its center and its scale.
fn center_columns<V: Number>(data: &mut [V], num_features: usize, centers: &[V], scales: &[V])
    requires
        crate::number::arithmetic::<V>(),
        num_features > 0,
        centers.len() == num_features,
        scales.len() == num_features,
    ensures
        crate::preprocessing::table::maps_cells(
            old(data)@,
            final(data)@,
            num_features as nat,
            centering(centers@, scales@),
        ),
{
    let change = |v: V, col: usize| -> (r: V)
        requires
            col < num_features,
            crate::number::arithmetic::<V>(),
            centers.len() == num_features,
            scales.len() == num_features,
        ensures
            r == centered(v, centers[col as int], scales[col as int]),
        { (v - centers[col]) / scales[col] };
    map_cells(data, num_features, &change, Ghost(centering(centers@, scales@)));
}

/// Scales to mean zero and standard deviation one.
#[derive(Debug, Clone)]
pub struct StandardScaler<V> {
    /// The mean of each column.
    pub means: Vec<V>,
    /// The standard deviation of each column.
    pub stds: Vec<V>,
    /// Whether means and standard deviations have been learnt.
    pub fitted: bool,
}

impl<V> StandardScaler<V> {
    /// A scaler that has learnt nothing.
    pub fn new() -> (r: Self)
        ensures
            !r.fitted,
            r.means@.len() == 0,
            r.stds@.len() == 0,
    {
        StandardScaler { means: Vec::new(), stds: Vec::new(), fitted: false }
    }

    /// The mean of each column.
    pub fn means(&self) -> (r: &[V])
        ensures
            r@ == self.means@,
    {
        self.means.as_slice()
    }

    /// The standard deviation of each column.
    pub fn stds(&self) -> (r: &[V])
        ensures
            r@ == self.stds@,
    {
        self.stds.as_slice()
    }
}

impl<V> Default for StandardScaler<V> {
    fn default() -> (r: Self)
        ensures
            !r.fitted,
            r.means@.len() == 0,
            r.stds@.len() == 0,
    {
        StandardScaler::new()
    }
}

impl<V: Number> StandardScaler<V> {
    /// What comes of learning from a table: the scaler becomes `after`, or the
    /// layout of the table is wrong.
    pub open spec fn fits<F: Functions<V>>(
        &self,
        after: &Self,
        f: &F,
        data: Seq<V>,
        num_features: nat,
        r: Result<()>,
    ) -> bool {
        let text = crate::preprocessing::table::layout_error(data.len(), num_features);
        match r {
            Ok(_) => text is None && after.learnt(f, data, num_features),
            Err(e) => text is Some && e.is_data(text->Some_0) && *after == *self,
        }
    }

    /// What comes of scaling a table: it becomes `after`, or nothing has been
    /// learnt or the table does not fit.
    pub open spec fn scales(
        &self,
        num_features: nat,
        before: Seq<V>,
        after: Seq<V>,
        r: Result<()>,
    ) -> bool {
        let text = crate::preprocessing::table::transform_error(
            "StandardScaler"@,
            self.fitted,
            self.means@.len(),
            before.len(),
            num_features,
        );
        match r {
            Ok(_) => text is None && crate::preprocessing::table::maps_cells(
                before,
                after,
                num_features,
                centering(self.means@, self.stds@),
            ),
            Err(e) => text is Some && e.is_data(text->Some_0) && after == before,
        }
    }
}

impl<V: Number> Scaler<V> for StandardScaler<V> {
    open spec fn wf(&self) -> bool {
        &&& self.means.len() == self.stds.len()
        &&& self.fitted ==> self.means.len() > 0
    }

    open spec fn scalable(&self, len: nat, num_features: nat) -> bool {
        ||| crate::preprocessing::table::refuses(
            self.fitted,
            self.means@.len(),
            len,
            num_features,
        )
        ||| num_features > 0 && self.means.len() == self.stds.len()
    }

    fn fit<F: Functions<V>>(&mut self, data: &[V], num_features: usize, f: &F) -> (r: Result<()>)
        ensures
            old(self).fits(final(self), f, data@, num_features as nat, r),
    {
        let num_rows: usize = match check_layout(data.len(), num_features) {
            Ok(rows) => rows,
            Err(e) => {
                return Err(e);
            },
        };
        let one: V = V::from(1u8);
        let floor: V = small_fraction(8);
        let mut means: Vec<V> = Vec::new();
        let mut stds: Vec<V> = Vec::new();
        let mut feat: usize = 0;
        while feat < num_features
            invariant
                crate::number::arithmetic::<V>(),
                crate::functions::computes(f),
                feat <= num_features,
                num_rows == crate::preprocessing::table::row_count(
                    data@.len(),
                    num_features as nat,
                ),
                one == crate::number::small::<V>(1),
                floor == crate::number::tenth_to::<V>(8),
                means.len() == feat,
                stds.len() == feat,
                forall|c: int|
                    0 <= c < feat ==> #[trigger] means[c] == mean_of(
                        f,
                        crate::preprocessing::table::column_of(data@, num_features as nat, c),
                    ),
                forall|c: int|
                    0 <= c < feat ==> #[trigger] stds[c] == std_of(
                        f,
                        crate::preprocessing::table::column_of(data@, num_features as nat, c),
                    ),
            decreases num_features - feat,
        {
            let column = read_column(data, num_features, feat);
            let count: V = f.count(num_rows);
            let mean: V = sum(column.as_slice()) / count;
            let mut squares: Vec<V> = Vec::new();
            let mut row: usize = 0;
            while row < column.len()
                invariant
                    crate::number::arithmetic::<V>(),
                    row <= column.len(),
                    squares@ == square_deviations(column@, mean).take(row as int),
                decreases column.len() - row,
            {
                let x: V = column[row];
                squares.push((x - mean) * (x - mean));
                row = row + 1;
                assert(squares@ =~= square_deviations(column@, mean).take(row as int));
            }
            assert(squares@ =~= square_deviations(column@, mean));
            let std: V = f.root(sum(squares.as_slice()) / count);
            means.push(mean);
            stds.push(
                if std < floor {
                    one
                } else {
                    std
                },
            );
            feat = feat + 1;
        }
        self.means = means;
        self.stds = stds;
        self.fitted = true;
        assert(self.means@ =~= Seq::new(
            num_features as nat,
            |c: int|
                mean_of(
                    f,
                    crate::preprocessing::table::column_of(data@, num_features as nat, c),
                ),
        ));
        assert(self.stds@ =~= Seq::new(
            num_features as nat,
            |c: int|
                std_of(
                    f,
                    crate::preprocessing::table::column_of(data@, num_features as nat, c),
                ),
        ));
        Ok(())
    }

    fn transform(&self, data: &mut [V], num_features: usize) -> (r: Result<()>)
        ensures
            self.scales(num_features as nat, old(data)@, final(data)@, r),
    {
        match check_transform(
            "StandardScaler",
            self.fitted,
            self.means.len(),
            data.len(),
            num_features,
        ) {
            Ok(_) => {},
            Err(e) => {
                return Err(e);
            },
        }
        center_columns(data, num_features, self.means.as_slice(), self.stds.as_slice());
        Ok(())
    }

    fn is_fitted(&self) -> (r: bool)
        ensures
            r == self.fitted,
    {
        self.fitted
    }
}

impl<V: Number> StandardScaler<V> {
    /// The mean and the standard deviation of each column of a table have been
    /// learnt.
    pub open spec fn learnt<F: Functions<V>>(
        &self,
        f: &F,
        data: Seq<V>,
        num_features: nat,
    ) -> bool {
        &&& self.fitted
        &&& self.wf()
        &&& self.means@ == Seq::new(
            num_features,
            |c: int|
                mean_of(f, crate::preprocessing::table::column_of(data, num_features, c)),
        )
        &&& self.stds@ == Seq::new(
            num_features,
            |c: int|
                std_of(f, crate::preprocessing::table::column_of(data, num_features, c)),
        )
    }
}

impl<V: Number> StandardScaler<V> {
    /// Learns the statistics of a table and scales it.
    pub fn fit_transform<F: Functions<V>>(
        &mut self,
        data: &mut [V],
        num_features: usize,
        f: &F,
    ) -> (r: Result<()>)
        requires
            crate::number::arithmetic::<V>(),
            crate::functions::computes(f),
        ensures
            match r {
                Ok(_) => {
                    &&& crate::preprocessing::table::layout_error(
                        old(data)@.len(),
                        num_features as nat,
                    ) is None
                    &&& final(self).learnt(f, old(data)@, num_features as nat)
                    &&& crate::preprocessing::table::maps_cells(
                        old(data)@,
                        final(data)@,
                        num_features as nat,
                        centering(final(self).means@, final(self).stds@),
                    )
                },
                Err(e) => {
                    let text = crate::preprocessing::table::layout_error(
                        old(data)@.len(),
                        num_features as nat,
                    );
                    &&& text is Some && e.is_data(text->Some_0)
                    &&& *final(self) == *old(self)
                    &&& final(data)@ == old(data)@
                },
            },
    {
        match self.fit(data, num_features, f) {
            Ok(_) => self.transform(data, num_features),
            Err(e) => Err(e),
        }
    }
}

/// The least entry of a column.
pub open spec fn min_of<V: Number>(column: Seq<V>) -> V
    decreases column.len(),
{
    if column.len() == 0 {
        crate::number::highest()
    } else {
        let before = min_of(column.drop_last());
        if crate::number::above(before, column.last()) {
            column.last()
        } else {
            before
        }
    }
}

/// The greatest entry of a column.
pub open spec fn max_of<V: Number>(column: Seq<V>) -> V
    decreases column.len(),
{
    if column.len() == 0 {
        crate::number::lowest()
    } else {
        let before = max_of(column.drop_last());
        if crate::number::above(column.last(), before) {
            column.last()
        } else {
            before
        }
    }
}

/// The upper end of a column for scaling: its greatest entry, or one more than
/// its least where the two are next to equal.
pub open spec fn upper_end<V: Number>(column: Seq<V>) -> V {
    if crate::number::below(
        crate::number::absolute(crate::number::minus(max_of(column), min_of(column))),
        crate::number::tenth_to::<V>(8),
    ) {
        crate::number::plus(min_of(column), crate::number::small(1))
    } else {
        max_of(column)
    }
}

/// No entry of a column is less than its least or greater than its greatest.
pub proof fn law_min_and_max_bound<V: Number>(column: Seq<V>, i: int)
    requires
        crate::number::ordered::<V>(),
        0 <= i < column.len(),
    ensures
        !crate::number::above(min_of(column), column[i]),
        !crate::number::above(column[i], max_of(column)),
    decreases column.len(),
{
    let fewer = column.drop_last();
    let last = column.last();
    if i < column.len() - 1 {
        law_min_and_max_bound(fewer, i);
        assert(fewer[i] == column[i]);
        if crate::number::above(min_of(fewer), last) && crate::number::above(last, column[i]) {
            assert(crate::number::above(min_of(fewer), column[i]));
        }
        if crate::number::above(last, max_of(fewer)) && crate::number::above(column[i], last) {
            assert(crate::number::above(column[i], max_of(fewer)));
        }
    }
}

/// Where a number lies between the ends of its column, carried over to a range
/// and cut off at its ends.
pub open spec fn ranged<V: Number>(v: V, min: V, max: V, low: V, high: V) -> V {
    crate::number::clamped(
        crate::number::plus(
            crate::number::times(
                crate::number::over(crate::number::minus(v, min), crate::number::minus(max, min)),
                crate::number::minus(high, low),
            ),
            low,
        ),
        low,
        high,
    )
}

/// The scaled entries of columns with the given ends.
pub open spec fn ranging<V: Number>(
    mins: Seq<V>,
    maxs: Seq<V>,
    low: V,
    high: V,
) -> spec_fn(V, int) -> V {
    |v: V, col: int| ranged(v, mins[col], maxs[col], low, high)
}

/// Scales to a range.
#[derive(Debug)]
pub struct MinMaxScaler<V> {
    /// The least entry of each column.
    pub mins: Vec<V>,
    /// The upper end of each column.
    pub maxs: Vec<V>,
    /// The range.
    pub feature_range: (V, V),
    /// Whether the ends have been learnt.
    pub fitted: bool,
}

impl<V: Clone> Clone for MinMaxScaler<V> {
    fn clone(&self) -> (r: Self)
        ensures
            r.mins@.len() == self.mins@.len(),
            forall|c: int|
                0 <= c < r.mins@.len() ==> cloned(#[trigger] self.mins@[c], r.mins@[c]),
            r.maxs@.len() == self.maxs@.len(),
            forall|c: int|
                0 <= c < r.maxs@.len() ==> cloned(#[trigger] self.maxs@[c], r.maxs@[c]),
            cloned(self.feature_range.0, r.feature_range.0),
            cloned(self.feature_range.1, r.feature_range.1),
            r.fitted == self.fitted,
    {
        MinMaxScaler {
            mins: self.mins.clone(),
            maxs: self.maxs.clone(),
            feature_range: (self.feature_range.0.clone(), self.feature_range.1.clone()),
            fitted: self.fitted,
        }
    }
}

impl<V: Number> Default for MinMaxScaler<V> {
    /// A scaler to the range from zero to one that has learnt nothing.
    fn default() -> (r: Self)
        ensures
            !r.fitted,
            r.mins@.len() == 0,
            r.maxs@.len() == 0,
            crate::number::arithmetic::<V>() ==> r.feature_range == (
                crate::number::small::<V>(0),
                crate::number::small::<V>(1),
            ),
    {
        MinMaxScaler {
            mins: Vec::new(),
            maxs: Vec::new(),
            feature_range: (V::from(0u8), V::from(1u8)),
            fitted: false,
        }
    }
}

impl<V: Number> MinMaxScaler<V> {
    /// A scaler to the range from zero to one that has learnt nothing.
    pub fn new() -> (r: Self)
        requires
            crate::number::arithmetic::<V>(),
        ensures
            !r.fitted,
            r.mins@.len() == 0,
            r.maxs@.len() == 0,
            r.feature_range == (crate::number::small::<V>(0), crate::number::small::<V>(1)),
    {
        MinMaxScaler {
            mins: Vec::new(),
            maxs: Vec::new(),
            feature_range: (V::from(0u8), V::from(1u8)),
            fitted: false,
        }
    }

    /// Sets the range.
    pub fn with_range(self, min: V, max: V) -> (r: Self)
        ensures
            r == (MinMaxScaler { feature_range: (min, max), ..self }),
    {
        MinMaxScaler { feature_range: (min, max), ..self }
    }
}

impl<V: Number> MinMaxScaler<V> {
    /// What comes of learning from a table: the scaler becomes `after`, or the
    /// layout of the table is wrong.
    pub open spec fn fits<F: Functions<V>>(
        &self,
        after: &Self,
        f: &F,
        data: Seq<V>,
        num_features: nat,
        r: Result<()>,
    ) -> bool {
        let text = crate::preprocessing::table::layout_error(data.len(), num_features);
        match r {
            Ok(_) => text is None && after.learnt(data, num_features) && after.feature_range == self.feature_range,
            Err(e) => text is Some && e.is_data(text->Some_0) && *after == *self,
        }
    }

    /// What comes of scaling a table: it becomes `after`, or nothing has been
    /// learnt or the table does not fit.
    pub open spec fn scales(
        &self,
        num_features: nat,
        before: Seq<V>,
        after: Seq<V>,
        r: Result<()>,
    ) -> bool {
        let text = crate::preprocessing::table::transform_error(
            "MinMaxScaler"@,
            self.fitted,
            self.mins@.len(),
            before.len(),
            num_features,
        );
        match r {
            Ok(_) => text is None && crate::preprocessing::table::maps_cells(
                before,
                after,
                num_features,
                ranging(self.mins@, self.maxs@, self.feature_range.0, self.feature_range.1),
            ),
            Err(e) => text is Some && e.is_data(text->Some_0) && after == before,
        }
    }
}

impl<V: Number> Scaler<V> for MinMaxScaler<V> {
    open spec fn wf(&self) -> bool {
        &&& self.mins.len() == self.maxs.len()
        &&& self.fitted ==> self.mins.len() > 0
    }

    /// The range must be in order as soon as there is a row to be scaled.
    open spec fn scalable(&self, len: nat, num_features: nat) -> bool {
        ||| crate::preprocessing::table::refuses(
            self.fitted,
            self.mins@.len(),
            len,
            num_features,
        )
        ||| {
            &&& num_features > 0
            &&& self.mins.len() == self.maxs.len()
            &&& len == 0 || crate::number::at_most(self.feature_range.0, self.feature_range.1)
        }
    }

    fn fit<F: Functions<V>>(&mut self, data: &[V], num_features: usize, f: &F) -> (r: Result<()>)
        ensures
            old(self).fits(final(self), f, data@, num_features as nat, r),
    {
        match check_layout(data.len(), num_features) {
            Ok(_) => {},
            Err(e) => {
                return Err(e);
            },
        }
        let one: V = V::from(1u8);
        let floor: V = small_fraction(8);
        let mut mins: Vec<V> = Vec::new();
        let mut maxs: Vec<V> = Vec::new();
        let mut feat: usize = 0;
        while feat < num_features
            invariant
                crate::number::arithmetic::<V>(),
                feat <= num_features,
                one == crate::number::small::<V>(1),
                floor == crate::number::tenth_to::<V>(8),
                mins.len() == feat,
                maxs.len() == feat,
                forall|c: int|
                    0 <= c < feat ==> #[trigger] mins[c] == min_of(
                        crate::preprocessing::table::column_of(data@, num_features as nat, c),
                    ),
                forall|c: int|
                    0 <= c < feat ==> #[trigger] maxs[c] == upper_end(
                        crate::preprocessing::table::column_of(data@, num_features as nat, c),
                    ),
            decreases num_features - feat,
        {
            let column = read_column(data, num_features, feat);
            let mut min: V = highest_number();
            let mut max: V = lowest_number();
            let mut row: usize = 0;
            assert(column@.take(0) =~= Seq::<V>::empty());
            while row < column.len()
                invariant
                    crate::number::arithmetic::<V>(),
                    row <= column.len(),
                    min == min_of(column@.take(row as int)),
                    max == max_of(column@.take(row as int)),
                decreases column.len() - row,
            {
                assert(column@.take(row + 1).drop_last() =~= column@.take(row as int));
                let val: V = column[row];
                if min > val {
                    min = val;
                }
                if val > max {
                    max = val;
                }
                row = row + 1;
            }
            assert(column@.take(row as int) =~= column@);
            mins.push(min);
            maxs.push(
                if magnitude(max - min) < floor {
                    min + one
                } else {
                    max
                },
            );
            feat = feat + 1;
        }
        self.mins = mins;
        self.maxs = maxs;
        self.fitted = true;
        assert(self.mins@ =~= Seq::new(
            num_features as nat,
            |c: int|
                min_of(crate::preprocessing::table::column_of(data@, num_features as nat, c)),
        ));
        assert(self.maxs@ =~= Seq::new(
            num_features as nat,
            |c: int|
                upper_end(crate::preprocessing::table::column_of(data@, num_features as nat, c)),
        ));
        Ok(())
    }

    fn transform(&self, data: &mut [V], num_features: usize) -> (r: Result<()>)
        ensures
            self.scales(num_features as nat, old(data)@, final(data)@, r),
    {
        match check_transform(
            "MinMaxScaler",
            self.fitted,
            self.mins.len(),
            data.len(),
            num_features,
        ) {
            Ok(_) => {},
            Err(e) => {
                return Err(e);
            },
        }
        let (low, high) = self.feature_range;
        let mins = self.mins.as_slice();
        let maxs = self.maxs.as_slice();
        let change = |v: V, col: usize| -> (r: V)
            requires
                col < num_features,
                crate::number::arithmetic::<V>(),
                mins.len() == num_features,
                maxs.len() == num_features,
            ensures
                r == ranged(v, mins[col as int], maxs[col as int], low, high),
            {
                let min: V = mins[col];
                let max: V = maxs[col];
                let scale = high - low;
                clamp((v - min) / (max - min) * scale + low, low, high)
            };
        map_cells(data, num_features, &change, Ghost(ranging(mins@, maxs@, low, high)));
        Ok(())
    }

    fn is_fitted(&self) -> (r: bool)
        ensures
            r == self.fitted,
    {
        self.fitted
    }
}

impl<V: Number> MinMaxScaler<V> {
    /// The ends of each column of a table have been learnt.
    pub open spec fn learnt(&self, data: Seq<V>, num_features: nat) -> bool {
        &&& self.fitted
        &&& self.mins.len() > 0
        &&& self.mins@ == Seq::new(
            num_features,
            |c: int|
                min_of(crate::preprocessing::table::column_of(data, num_features, c)),
        )
        &&& self.maxs@ == Seq::new(
            num_features,
            |c: int|
                upper_end(crate::preprocessing::table::column_of(data, num_features, c)),
        )
    }
}

impl<V: Number> MinMaxScaler<V> {
    /// Learns the statistics of a table and scales it.
    pub fn fit_transform<F: Functions<V>>(
        &mut self,
        data: &mut [V],
        num_features: usize,
        f: &F,
    ) -> (r: Result<()>)
        requires
            crate::number::arithmetic::<V>(),
            crate::functions::computes(f),
            crate::preprocessing::table::layout_error(old(data)@.len(), num_features as nat) is None
                ==> crate::number::at_most(old(self).feature_range.0, old(self).feature_range.1),
        ensures
            match r {
                Ok(_) => {
                    &&& crate::preprocessing::table::layout_error(
                        old(data)@.len(),
                        num_features as nat,
                    ) is None
                    &&& final(self).learnt(old(data)@, num_features as nat)
                    &&& crate::preprocessing::table::maps_cells(
                        old(data)@,
                        final(data)@,
                        num_features as nat,
                        ranging(
                            final(self).mins@,
                            final(self).maxs@,
                            final(self).feature_range.0,
                            final(self).feature_range.1,
                        ),
                    )
                    &&& final(self).feature_range == old(self).feature_range
                },
                Err(e) => {
                    let text = crate::preprocessing::table::layout_error(
                        old(data)@.len(),
                        num_features as nat,
                    );
                    &&& text is Some && e.is_data(text->Some_0)
                    &&& *final(self) == *old(self)
                    &&& final(data)@ == old(data)@
                },
            },
    {
        match self.fit(data, num_features, f) {
            Ok(_) => self.transform(data, num_features),
            Err(e) => Err(e),
        }
    }
}

/// A table scaled to a range has its entries in that range.
pub proof fn law_scaled_into_range<V: Number>(
    before: Seq<V>,
    after: Seq<V>,
    num_features: nat,
    mins: Seq<V>,
    maxs: Seq<V>,
    low: V,
    high: V,
    i: int,
)
    requires
        crate::number::ordered::<V>(),
        crate::number::mirrored::<V>(),
        crate::number::at_most(low, high),
        num_features > 0,
        before.len() % num_features == 0,
        crate::preprocessing::table::maps_cells(
            before,
            after,
            num_features,
            ranging(mins, maxs, low, high),
        ),
        0 <= i < before.len(),
    ensures
        !crate::number::below(after[i], low),
        !crate::number::above(after[i], high),
{
    let k = num_features as int;
    let n = before.len() as int;
    assert(n / k * k == n) by (nonlinear_arith)
        requires
            n % k == 0,
            k > 0,
    ;
    let min = mins[i % k];
    let max = maxs[i % k];
    let moved = crate::number::plus(
        crate::number::times(
            crate::number::over(
                crate::number::minus(before[i], min),
                crate::number::minus(max, min),
            ),
            crate::number::minus(high, low),
        ),
        low,
    );
    crate::number::law_clamped_within(moved, low, high);
    assert(after[i] == ranged(before[i], min, max, low, high));
}

/// What the ends of a column are made of: a hundred-millionth is above zero, what
/// is not below a number above zero has an inverse that is not negative, and one
/// more than a number is not less than it. Infinity is a number, and nothing
/// has a place between an infinite lower end and an infinite upper end that are
/// exchanged. This is so for every floating-point type.
pub open spec fn spaced<V: Number>() -> bool {
    &&& crate::number::above(crate::number::tenth_to::<V>(8), crate::number::small(0))
    &&& forall|c: V, d: V|
        crate::number::above(d, crate::number::small(0)) && !(#[trigger] crate::number::below(
            c,
            d,
        )) ==> !crate::number::below(
            crate::number::over(crate::number::small(1), c),
            crate::number::small(0),
        )
    &&& forall|a: V| #[trigger]
        crate::number::upward(
            crate::number::minus(crate::number::plus(a, crate::number::small(1)), a),
        )
    &&& !crate::number::missing(crate::number::highest::<V>())
    &&& !crate::number::missing(crate::number::lowest::<V>())
    &&& forall|v: V|
        crate::number::missing(
            crate::number::over(
                #[trigger] crate::number::minus(v, crate::number::highest::<V>()),
                crate::number::minus(crate::number::lowest::<V>(), crate::number::highest::<V>()),
            ),
        )
}

/// The place of a number between the ends of a column is in the order of the
/// numbers.
pub open spec fn placed_in_order<V: Number>(min: V, max: V) -> bool {
    forall|a: V, b: V|
        !crate::number::above(a, b) ==> !crate::number::above(
            crate::number::over(
                #[trigger] crate::number::minus(a, min),
                crate::number::minus(max, min),
            ),
            crate::number::over(
                #[trigger] crate::number::minus(b, min),
                crate::number::minus(max, min),
            ),
        )
}

/// The ends of a column that holds no number are exchanged infinities; else they
/// are numbers.
proof fn lemma_ends<V: Number>(column: Seq<V>)
    requires
        crate::number::monotone::<V>(),
        spaced::<V>(),
    ensures
        !crate::number::missing(min_of(column)),
        !crate::number::missing(max_of(column)),
        (forall|i: int| 0 <= i < column.len() ==> crate::number::missing(#[trigger] column[i]))
            ==> min_of(column) == crate::number::highest::<V>() && max_of(column)
            == crate::number::lowest::<V>(),
    decreases column.len(),
{
    if column.len() > 0 {
        let fewer = column.drop_last();
        lemma_ends(fewer);
        if forall|i: int| 0 <= i < column.len() ==> crate::number::missing(#[trigger] column[i]) {
            assert forall|i: int| 0 <= i < fewer.len() implies crate::number::missing(
                #[trigger] fewer[i],
            ) by {
                assert(fewer[i] == column[i]);
            }
            assert(crate::number::missing(column[column.len() - 1]));
        }
    }
}

/// Whatever column the ends come from, places between them are in the order of
/// the numbers.
pub proof fn law_learnt_ends_keep_order<V: Number>(column: Seq<V>)
    requires
        crate::number::ordered::<V>(),
        crate::number::ranked::<V>(),
        crate::number::mirrored::<V>(),
        crate::number::monotone::<V>(),
        spaced::<V>(),
    ensures
        placed_in_order(min_of(column), upper_end(column)),
{
    let min = min_of(column);
    let max = upper_end(column);
    let width = crate::number::minus(max, min);
    lemma_ends(column);
    if crate::number::below(
        crate::number::absolute(crate::number::minus(max_of(column), min)),
        crate::number::tenth_to::<V>(8),
    ) {
        assert(crate::number::upward(width));
    } else if exists|i: int|
        0 <= i < column.len() && !crate::number::missing(#[trigger] column[i]) {
        let i = choose|i: int|
            0 <= i < column.len() && !crate::number::missing(#[trigger] column[i]);
        law_min_and_max_bound(column, i);
        assert(!crate::number::above(min, max));
        assert(!crate::number::below(width, crate::number::small(0)));
        assert(crate::number::absolute(width) == width);
        assert(!crate::number::below(width, crate::number::tenth_to::<V>(8)));
        assert(crate::number::upward(width));
    } else {
        assert(min == crate::number::highest::<V>() && max == crate::number::lowest::<V>());
    }
    assert forall|a: V, b: V| !crate::number::above(a, b) implies !crate::number::above(
        crate::number::over(#[trigger] crate::number::minus(a, min), width),
        crate::number::over(#[trigger] crate::number::minus(b, min), width),
    ) by {
        if crate::number::upward(width) {
            assert(!crate::number::above(
                crate::number::minus(a, min),
                crate::number::minus(b, min),
            ));
        }
    }
}

/// Scaling to a range keeps the order within a column.
pub proof fn law_scaled_in_order<V: Number>(
    before: Seq<V>,
    after: Seq<V>,
    num_features: nat,
    mins: Seq<V>,
    maxs: Seq<V>,
    low: V,
    high: V,
    i: int,
    j: int,
)
    requires
        crate::number::ordered::<V>(),
        crate::number::ranked::<V>(),
        crate::number::mirrored::<V>(),
        crate::number::monotone::<V>(),
        crate::number::at_most(low, high),
        num_features > 0,
        before.len() % num_features == 0,
        crate::preprocessing::table::maps_cells(
            before,
            after,
            num_features,
            ranging(mins, maxs, low, high),
        ),
        0 <= i < before.len(),
        0 <= j < before.len(),
        i % num_features as int == j % num_features as int,
        placed_in_order(mins[i % num_features as int], maxs[i % num_features as int]),
        !crate::number::above(before[i], before[j]),
    ensures
        !crate::number::above(after[i], after[j]),
{
    let k = num_features as int;
    let n = before.len() as int;
    assert(n / k * k == n) by (nonlinear_arith)
        requires
            n % k == 0,
            k > 0,
    ;
    let min = mins[i % k];
    let max = maxs[i % k];
    let span = crate::number::minus(high, low);
    let a = crate::number::over(
        crate::number::minus(before[i], min),
        crate::number::minus(max, min),
    );
    let b = crate::number::over(
        crate::number::minus(before[j], min),
        crate::number::minus(max, min),
    );
    assert(!crate::number::above(a, b));
    assert(!crate::number::below(span, crate::number::small(0)));
    let c = crate::number::times(a, span);
    let d = crate::number::times(b, span);
    assert(!crate::number::above(c, d));
    crate::number::law_clamped_in_order(
        crate::number::plus(c, low),
        crate::number::plus(d, low),
        low,
        high,
    );
    assert(after[i] == ranged(before[i], min, max, low, high));
    assert(after[j] == ranged(before[j], min, max, low, high));
}

/// A scaler that has learnt from a table keeps the order within each column of
/// whatever it scales.
pub proof fn law_scaler_keeps_order<V: Number>(
    scaler: MinMaxScaler<V>,
    data: Seq<V>,
    num_features: nat,
    before: Seq<V>,
    after: Seq<V>,
    i: int,
    j: int,
)
    requires
        crate::number::ordered::<V>(),
        crate::number::ranked::<V>(),
        crate::number::mirrored::<V>(),
        crate::number::monotone::<V>(),
        spaced::<V>(),
        crate::number::at_most(scaler.feature_range.0, scaler.feature_range.1),
        num_features > 0,
        scaler.learnt(data, num_features),
        scaler.scales(num_features, before, after, Ok(())),
        0 <= i < before.len(),
        0 <= j < before.len(),
        i % num_features as int == j % num_features as int,
        !crate::number::above(before[i], before[j]),
    ensures
        !crate::number::above(after[i], after[j]),
{
    let c = i % num_features as int;
    law_learnt_ends_keep_order(crate::preprocessing::table::column_of(data, num_features, c));
    law_scaled_in_order(
        before,
        after,
        num_features,
        scaler.mins@,
        scaler.maxs@,
        scaler.feature_range.0,
        scaler.feature_range.1,
        i,
        j,
    );
}

/// The numbers of a list that are neither missing nor infinite.
pub open spec fn finite_of<V: Number>(list: Seq<V>) -> Seq<V> {
    list.filter(|v: V| crate::number::finite(v))
}

/// The numbers of a list that are neither missing nor infinite.
pub fn keep_finite<V: Number>(list: &[V]) -> (r: Vec<V>)
    requires
        crate::number::arithmetic::<V>(),
    ensures
        r@ == finite_of(list@),
{
    let mut kept: Vec<V> = Vec::new();
    let mut i: usize = 0;
    proof {
        reveal(Seq::filter);
        assert(list@.take(0) =~= Seq::<V>::empty());
    }
    while i < list.len()
        invariant
            crate::number::arithmetic::<V>(),
            i <= list.len(),
            kept@ == finite_of(list@.take(i as int)),
        decreases list.len() - i,
    {
        proof {
            reveal(Seq::filter);
            assert(list@.take(i + 1).drop_last() =~= list@.take(i as int));
        }
        if is_finite(list[i]) {
            kept.push(list[i]);
        }
        i = i + 1;
    }
    assert(list@.take(i as int) =~= list@);
    kept
}

/// The lower quartile, the median and the upper quartile of the finite numbers
/// of a column.
pub open spec fn column_quartiles<V: Number, F: Functions<V>>(f: &F, column: Seq<V>) -> (V, V, V) {
    crate::functions::quartiles_of(f, finite_of(column))
}

/// The distance of the quartiles of a column; one, where it is next to nothing.
pub open spec fn iqr_of<V: Number, F: Functions<V>>(f: &F, column: Seq<V>) -> V {
    let q = column_quartiles(f, column);
    usable_scale(crate::number::minus(q.2, q.0))
}

/// Scales by median and quartiles.
#[derive(Debug, Clone)]
pub struct RobustScaler<V> {
    /// The median of each column.
    pub medians: Vec<V>,
    /// The distance of the quartiles of each column.
    pub iqrs: Vec<V>,
    /// Whether medians and distances have been learnt.
    pub fitted: bool,
}

impl<V> RobustScaler<V> {
    /// A scaler that has learnt nothing.
    pub fn new() -> (r: Self)
        ensures
            !r.fitted,
            r.medians@.len() == 0,
            r.iqrs@.len() == 0,
    {
        RobustScaler { medians: Vec::new(), iqrs: Vec::new(), fitted: false }
    }
}

impl<V> Default for RobustScaler<V> {
    fn default() -> (r: Self)
        ensures
            !r.fitted,
            r.medians@.len() == 0,
            r.iqrs@.len() == 0,
    {
        RobustScaler::new()
    }
}

impl<V: Number> RobustScaler<V> {
    /// What comes of learning from a table: the scaler becomes `after`, or the
    /// layout of the table is wrong.
    pub open spec fn fits<F: Functions<V>>(
        &self,
        after: &Self,
        f: &F,
        data: Seq<V>,
        num_features: nat,
        r: Result<()>,
    ) -> bool {
        let text = crate::preprocessing::table::layout_error(data.len(), num_features);
        match r {
            Ok(_) => text is None && after.learnt(f, data, num_features),
            Err(e) => text is Some && e.is_data(text->Some_0) && *after == *self,
        }
    }

    /// What comes of scaling a table: it becomes `after`, or nothing has been
    /// learnt or the table does not fit.
    pub open spec fn scales(
        &self,
        num_features: nat,
        before: Seq<V>,
        after: Seq<V>,
        r: Result<()>,
    ) -> bool {
        let text = crate::preprocessing::table::transform_error(
            "RobustScaler"@,
            self.fitted,
            self.medians@.len(),
            before.len(),
            num_features,
        );
        match r {
            Ok(_) => text is None && crate::preprocessing::table::maps_cells(
                before,
                after,
                num_features,
                centering(self.medians@, self.iqrs@),
            ),
            Err(e) => text is Some && e.is_data(text->Some_0) && after == before,
        }
    }
}

impl<V: Number> Scaler<V> for RobustScaler<V> {
    open spec fn wf(&self) -> bool {
        &&& self.medians.len() == self.iqrs.len()
        &&& self.fitted ==> self.medians.len() > 0
    }

    open spec fn scalable(&self, len: nat, num_features: nat) -> bool {
        ||| crate::preprocessing::table::refuses(
            self.fitted,
            self.medians@.len(),
            len,
            num_features,
        )
        ||| num_features > 0 && self.medians.len() == self.iqrs.len()
    }

    fn fit<F: Functions<V>>(&mut self, data: &[V], num_features: usize, f: &F) -> (r: Result<()>)
        ensures
            old(self).fits(final(self), f, data@, num_features as nat, r),
    {
        match check_layout(data.len(), num_features) {
            Ok(_) => {},
            Err(e) => {
                return Err(e);
            },
        }
        let one: V = V::from(1u8);
        let floor: V = small_fraction(8);
        let mut medians: Vec<V> = Vec::new();
        let mut iqrs: Vec<V> = Vec::new();
        let mut feat: usize = 0;
        while feat < num_features
            invariant
                crate::number::arithmetic::<V>(),
                crate::functions::computes(f),
                feat <= num_features,
                one == crate::number::small::<V>(1),
                floor == crate::number::tenth_to::<V>(8),
                medians.len() == feat,
                iqrs.len() == feat,
                forall|c: int|
                    0 <= c < feat ==> #[trigger] medians[c] == column_quartiles(
                        f,
                        crate::preprocessing::table::column_of(data@, num_features as nat, c),
                    ).1,
                forall|c: int|
                    0 <= c < feat ==> #[trigger] iqrs[c] == iqr_of(
                        f,
                        crate::preprocessing::table::column_of(data@, num_features as nat, c),
                    ),
            decreases num_features - feat,
        {
            let column = read_column(data, num_features, feat);
            let numbers = keep_finite(column.as_slice());
            let slice = numbers.as_slice();
            let q = f.quartiles(slice);
            assert(crate::functions::may_be_quartiles(f, numbers@, q));
            let iqr: V = q.2 - q.0;
            medians.push(q.1);
            iqrs.push(
                if iqr < floor {
                    one
                } else {
                    iqr
                },
            );
            feat = feat + 1;
        }
        self.medians = medians;
        self.iqrs = iqrs;
        self.fitted = true;
        assert(self.medians@ =~= Seq::new(
            num_features as nat,
            |c: int|
                column_quartiles(
                    f,
                    crate::preprocessing::table::column_of(data@, num_features as nat, c),
                ).1,
        ));
        assert(self.iqrs@ =~= Seq::new(
            num_features as nat,
            |c: int|
                iqr_of(f, crate::preprocessing::table::column_of(data@, num_features as nat, c)),
        ));
        Ok(())
    }

    fn transform(&self, data: &mut [V], num_features: usize) -> (r: Result<()>)
        ensures
            self.scales(num_features as nat, old(data)@, final(data)@, r),
    {
        match check_transform(
            "RobustScaler",
            self.fitted,
            self.medians.len(),
            data.len(),
            num_features,
        ) {
            Ok(_) => {},
            Err(e) => {
                return Err(e);
            },
        }
        center_columns(data, num_features, self.medians.as_slice(), self.iqrs.as_slice());
        Ok(())
    }

    fn is_fitted(&self) -> (r: bool)
        ensures
            r == self.fitted,
    {
        self.fitted
    }
}

impl<V: Number> RobustScaler<V> {
    /// The median and the distance of the quartiles of each column of a table
    /// have been learnt.
    pub open spec fn learnt<F: Functions<V>>(
        &self,
        f: &F,
        data: Seq<V>,
        num_features: nat,
    ) -> bool {
        &&& self.fitted
        &&& self.wf()
        &&& self.medians@ == Seq::new(
            num_features,
            |c: int|
                column_quartiles(
                    f,
                    crate::preprocessing::table::column_of(data, num_features, c),
                ).1,
        )
        &&& self.iqrs@ == Seq::new(
            num_features,
            |c: int|
                iqr_of(f, crate::preprocessing::table::column_of(data, num_features, c)),
        )
    }
}

impl<V: Number> RobustScaler<V> {
    /// Learns the statistics of a table and scales it.
    pub fn fit_transform<F: Functions<V>>(
        &mut self,
        data: &mut [V],
        num_features: usize,
        f: &F,
    ) -> (r: Result<()>)
        requires
            crate::number::arithmetic::<V>(),
            crate::functions::computes(f),
        ensures
            match r {
                Ok(_) => {
                    &&& crate::preprocessing::table::layout_error(
                        old(data)@.len(),
                        num_features as nat,
                    ) is None
                    &&& final(self).learnt(f, old(data)@, num_features as nat)
                    &&& crate::preprocessing::table::maps_cells(
                        old(data)@,
                        final(data)@,
                        num_features as nat,
                        centering(final(self).medians@, final(self).iqrs@),
                    )
                },
                Err(e) => {
                    let text = crate::preprocessing::table::layout_error(
                        old(data)@.len(),
                        num_features as nat,
                    );
                    &&& text is Some && e.is_data(text->Some_0)
                    &&& *final(self) == *old(self)
                    &&& final(data)@ == old(data)@
                },
            },
    {
        match self.fit(data, num_features, f) {
            Ok(_) => self.transform(data, num_features),
            Err(e) => Err(e),
        }
    }
}

/// The distances of the entries of a column from a number.
pub open spec fn deviations<V: Number>(column: Seq<V>, center: V) -> Seq<V> {
    Seq::new(column.len(), |i: int| crate::number::minus(column[i], center))
}

/// The distances from any number add up to the sum of the entries, less as many
/// times the number.
proof fn lemma_deviations<V: Number>(worth: spec_fn(V) -> real, column: Seq<V>, center: V)
    requires
        crate::exact::exact(worth),
    ensures
        worth(crate::number::total(deviations(column, center))) == worth(
            crate::number::total(column),
        ) - column.len() as real * worth(center),
{
    let back = Seq::new(column.len(), |i: int| center);
    crate::exact::lemma_total_constant(worth, back, worth(center));
    crate::exact::lemma_total_summed(worth, deviations(column, center), back, column);
}

/// The mean of a column balances it: the distances of the entries from it add up
/// to zero, and those from any other number do not.
pub proof fn law_mean_balances<V: Number, F: Functions<V>>(
    worth: spec_fn(V) -> real,
    f: &F,
    column: Seq<V>,
    other: V,
)
    requires
        crate::exact::exact(worth),
        crate::exact::counts(f, worth),
        0 < column.len() <= usize::MAX,
    ensures
        worth(crate::number::total(deviations(column, mean_of(f, column)))) == 0real,
        worth(crate::number::total(deviations(column, other))) == 0real <==> worth(other) == worth(
            mean_of(f, column),
        ),
        worth(mean_of(f, column)) * column.len() as real == worth(crate::number::total(column)),
{
    let n = column.len() as real;
    let t = worth(crate::number::total(column));
    let m = worth(mean_of(f, column));
    assert(m * n == t && n * m == t) by (nonlinear_arith)
        requires
            m == t / n,
            n > 0real,
    ;
    lemma_deviations(worth, column, mean_of(f, column));
    lemma_deviations(worth, column, other);
    let o = worth(other);
    assert(t - n * o == 0real <==> o == m) by (nonlinear_arith)
        requires
            n * m == t,
            n > 0real,
    ;
}

/// The squares of the distances add up to those from zero, less what the distance
/// of zero accounts for.
pub proof fn lemma_square_deviations<V: Number>(
    worth: spec_fn(V) -> real,
    column: Seq<V>,
    center: V,
)
    requires
        crate::exact::exact(worth),
    ensures
        ({
            let n = column.len() as real;
            let c = worth(center);
            let t = worth(crate::number::total(column));
            worth(crate::number::total(square_deviations(column, center))) == worth(
                crate::number::total(square_deviations(column, crate::number::small(0))),
            ) - 2real * (c * t) + n * (c * c)
        }),
        worth(crate::number::total(square_deviations(column, center))) >= 0real,
    decreases column.len(),
{
    let c = worth(center);
    let zero = crate::number::small::<V>(0);
    let p = square_deviations(column, center);
    assert forall|i: int| 0 <= i < p.len() implies worth(#[trigger] p[i]) >= 0real by {
        let d = worth(crate::number::minus(column[i], center));
        assert(d * d >= 0real) by (nonlinear_arith);
    }
    crate::exact::lemma_total_of_squares(worth, p);
    if column.len() > 0 {
        let fewer = column.drop_last();
        let x = worth(column.last());
        lemma_square_deviations(worth, fewer, center);
        assert(p.drop_last() =~= square_deviations(fewer, center));
        assert(square_deviations(column, zero).drop_last() =~= square_deviations(fewer, zero));
        let t = worth(crate::number::total(fewer));
        let n = fewer.len() as real;
        assert((x - c) * (x - c) == (x - 0real) * (x - 0real) - 2real * (c * x) + c * c)
            by (nonlinear_arith);
        assert(c * (t + x) == c * t + c * x) by (nonlinear_arith);
        assert((n + 1real) * (c * c) == n * (c * c) + c * c) by (nonlinear_arith);
    } else {
        assert(c * 0real == 0real && 0real * (c * c) == 0real) by (nonlinear_arith);
    }
}

/// No number has less squares of distances around it than the mean.
pub proof fn law_mean_has_least_squares<V: Number, F: Functions<V>>(
    worth: spec_fn(V) -> real,
    f: &F,
    column: Seq<V>,
    other: V,
)
    requires
        crate::exact::exact(worth),
        crate::exact::counts(f, worth),
        0 < column.len() <= usize::MAX,
    ensures
        worth(crate::number::total(square_deviations(column, mean_of(f, column)))) <= worth(
            crate::number::total(square_deviations(column, other)),
        ),
{
    law_mean_balances(worth, f, column, other);
    lemma_square_deviations(worth, column, mean_of(f, column));
    lemma_square_deviations(worth, column, other);
    let n = column.len() as real;
    let m = worth(mean_of(f, column));
    let o = worth(other);
    let t = worth(crate::number::total(column));
    assert(n * (m * m) - 2real * (m * t) <= n * (o * o) - 2real * (o * t)) by (nonlinear_arith)
        requires
            m * n == t,
            n > 0real,
    ;
}

/// Scaling by a center and a scale: the center comes to zero, and distances are
/// measured in the scale.
pub proof fn law_centering<V: Number>(
    worth: spec_fn(V) -> real,
    v: V,
    w: V,
    center: V,
    scale: V,
)
    requires
        crate::exact::exact(worth),
        worth(scale) != 0real,
    ensures
        worth(centered(center, center, scale)) == 0real,
        (worth(centered(v, center, scale)) - worth(centered(w, center, scale))) * worth(scale)
            == worth(v) - worth(w),
{
    let (a, b, c, s) = (worth(v), worth(w), worth(center), worth(scale));
    assert((c - c) / s == 0real) by (nonlinear_arith)
        requires
            s != 0real,
    ;
    assert(((a - c) / s - (b - c) / s) * s == a - b) by (nonlinear_arith)
        requires
            s != 0real,
    ;
}

/// A usable scale is never zero, and is the scale itself unless that is next to
/// nothing.
pub proof fn law_usable_scale<V: Number>(worth: spec_fn(V) -> real, scale: V)
    requires
        crate::exact::exact(worth),
    ensures
        worth(usable_scale(scale)) > 0real,
        worth(scale) * worth(crate::number::ten_to::<V>(8)) >= 1real ==> usable_scale(scale)
            == scale,
        worth(scale) * worth(crate::number::ten_to::<V>(8)) < 1real ==> worth(usable_scale(scale))
            == 1real,
{
    crate::exact::lemma_tenth_positive::<V>(worth, 8);
    let (s, t, u) = (
        worth(scale),
        worth(crate::number::ten_to::<V>(8)),
        worth(crate::number::tenth_to::<V>(8)),
    );
    assert(s * t >= 1real <==> s >= u) by (nonlinear_arith)
        requires
            u * t == 1real,
            t >= 1real,
    ;
}

/// A table that is scaled by what was learnt from it has columns with mean zero,
/// and with standard deviation one, unless a column hardly varies.
pub proof fn law_standardized<V: Number, F: Functions<V>>(
    worth: spec_fn(V) -> real,
    f: &F,
    scaler: StandardScaler<V>,
    data: Seq<V>,
    after: Seq<V>,
    num_features: nat,
    c: int,
)
    requires
        crate::exact::exact(worth),
        crate::exact::counts(f, worth),
        crate::exact::roots(f, worth),
        scaler.learnt(f, data, num_features),
        scaler.scales(num_features, data, after, Ok(())),
        num_features > 0,
        0 <= c < num_features,
        0 < data.len() / num_features,
        data.len() <= usize::MAX,
    ensures
        ({
            let column = crate::preprocessing::table::column_of(data, num_features, c);
            let scaled = crate::preprocessing::table::column_of(after, num_features, c);
            &&& worth(mean_of(f, scaled)) == 0real
            &&& worth(
                crate::number::total(square_deviations(column, mean_of(f, column))),
            ) >= column.len() as real ==> worth(
                crate::number::total(square_deviations(scaled, mean_of(f, scaled))),
            ) == column.len() as real
        }),
{
    let column = crate::preprocessing::table::column_of(data, num_features, c);
    let scaled = crate::preprocessing::table::column_of(after, num_features, c);
    let n = column.len() as real;
    let mean = mean_of(f, column);
    let scale = std_of(f, column);
    let k = num_features as int;
    assert(data.len() as int / k <= data.len()) by (nonlinear_arith)
        requires
            k > 0,
            data.len() >= 0,
    ;
    let squares = crate::number::total(square_deviations(column, mean));
    let variance = crate::number::over(
        squares,
        crate::functions::count_of::<V, F>(f, column.len() as usize),
    );
    let root = crate::functions::root_of(f, variance);
    law_usable_scale(worth, root);
    let s = worth(scale);
    assert forall|i: int| 0 <= i < scaled.len() implies worth(#[trigger] scaled[i]) == (1real / s)
        * worth(deviations(column, mean)[i]) by {
        crate::preprocessing::table::law_cells_stay_in_place(
            data,
            after,
            num_features,
            centering(scaler.means@, scaler.stds@),
            i,
            c,
        );
        let d = worth(column[i]) - worth(mean);
        assert(d / s == (1real / s) * d) by (nonlinear_arith)
            requires
                s > 0real,
        ;
    }
    law_mean_balances(worth, f, column, mean);
    crate::exact::lemma_total_scaled(worth, deviations(column, mean), scaled, 1real / s);
    assert((1real / s) * 0real == 0real) by (nonlinear_arith);
    assert(0real / n == 0real) by (nonlinear_arith)
        requires
            n > 0real,
    ;
    let q = worth(squares);
    if q >= n {
        lemma_square_deviations(worth, column, mean);
        let v = worth(variance);
        let r = worth(root);
        assert(v >= 1real && v * n == q) by (nonlinear_arith)
            requires
                v == q / n,
                n > 0real,
                q >= n,
        ;
        assert(r >= 1real) by (nonlinear_arith)
            requires
                r >= 0real,
                r * r == v,
                v >= 1real,
        ;
        crate::exact::lemma_tenth_positive::<V>(worth, 8);
        assert(scale == root);
        let squared = square_deviations(scaled, mean_of(f, scaled));
        let plain = square_deviations(column, mean);
        assert forall|i: int| 0 <= i < plain.len() implies worth(#[trigger] squared[i]) == (1real
            / v) * worth(plain[i]) by {
            let d = worth(deviations(column, mean)[i]);
            let e = worth(scaled[i]);
            assert((e - 0real) * (e - 0real) == (1real / v) * (d * d)) by (nonlinear_arith)
                requires
                    e == (1real / s) * d,
                    s * s == v,
                    s > 0real,
                    v > 0real,
            ;
        }
        crate::exact::lemma_total_scaled(worth, plain, squared, 1real / v);
        assert((1real / v) * q == n) by (nonlinear_arith)
            requires
                v * n == q,
                v > 0real,
        ;
    }
}

/// The ends of a column are entries of it, where its entries are finite.
pub proof fn law_ends_are_entries<V: Number>(column: Seq<V>)
    requires
        crate::number::ordered::<V>(),
        column.len() > 0,
        forall|i: int|
            0 <= i < column.len() ==> crate::number::above(
                crate::number::highest(),
                #[trigger] column[i],
            ) && crate::number::above(column[i], crate::number::lowest()),
    ensures
        column.contains(min_of(column)),
        column.contains(max_of(column)),
    decreases column.len(),
{
    let fewer = column.drop_last();
    let last = column.len() - 1;
    assert(crate::number::above(crate::number::highest(), column[last]));
    assert(column[last] == column.last());
    if fewer.len() > 0 {
        assert forall|i: int| 0 <= i < fewer.len() implies crate::number::above(
            crate::number::highest(),
            #[trigger] fewer[i],
        ) && crate::number::above(fewer[i], crate::number::lowest()) by {
            assert(fewer[i] == column[i]);
        }
        law_ends_are_entries(fewer);
        let a = choose|a: int| 0 <= a < fewer.len() && fewer[a] == min_of(fewer);
        let b = choose|b: int| 0 <= b < fewer.len() && fewer[b] == max_of(fewer);
        assert(column[a] == fewer[a] && column[b] == fewer[b]);
    } else {
        assert(min_of(fewer) == crate::number::highest::<V>());
        assert(max_of(fewer) == crate::number::lowest::<V>());
    }
}

/// Scaling to a range carries the lower end of a column to the lower end of the
/// range, the upper end to the upper end, and keeps the proportions of distances
/// between.
pub proof fn law_range_is_filled<V: Number>(
    worth: spec_fn(V) -> real,
    v: V,
    min: V,
    max: V,
    low: V,
    high: V,
)
    requires
        crate::exact::exact(worth),
        worth(min) < worth(max),
        worth(low) <= worth(high),
        worth(min) <= worth(v) && worth(v) <= worth(max),
    ensures
        worth(ranged(min, min, max, low, high)) == worth(low),
        worth(ranged(max, min, max, low, high)) == worth(high),
        (worth(ranged(v, min, max, low, high)) - worth(low)) * (worth(max) - worth(min)) == (worth(
            v,
        ) - worth(min)) * (worth(high) - worth(low)),
{
    let (x, a, b, l, h) = (worth(v), worth(min), worth(max), worth(low), worth(high));
    assert(0real <= (x - a) / (b - a) * (h - l) && (x - a) / (b - a) * (h - l) <= h - l)
        by (nonlinear_arith)
        requires
            a < b,
            l <= h,
            a <= x,
            x <= b,
    ;
    assert((x - a) / (b - a) * (h - l) * (b - a) == (x - a) * (h - l)) by (nonlinear_arith)
        requires
            a < b,
    ;
    assert((a - a) / (b - a) * (h - l) == 0real) by (nonlinear_arith)
        requires
            a < b,
    ;
    assert((b - a) / (b - a) * (h - l) == h - l) by (nonlinear_arith)
        requires
            a < b,
    ;
}

/// The upper end of a column is its greatest entry, but where that is next to the
/// least, and then it is one above.
pub proof fn law_upper_end<V: Number>(worth: spec_fn(V) -> real, column: Seq<V>)
    requires
        crate::exact::exact(worth),
        worth(min_of(column)) <= worth(max_of(column)),
    ensures
        worth(min_of(column)) < worth(upper_end(column)),
        worth(max_of(column)) - worth(min_of(column)) >= 1real ==> upper_end(column) == max_of(
            column,
        ),
        worth(max_of(column)) == worth(min_of(column)) ==> worth(upper_end(column)) == worth(
            min_of(column),
        ) + 1real,
{
    crate::exact::lemma_tenth_positive::<V>(worth, 8);
}

/// Scaling by what was learnt carries the median of a column to zero, and makes
/// the quartiles one apart, unless they are next to each other.
pub proof fn law_quartiles_are_one_apart<V: Number, F: Functions<V>>(
    worth: spec_fn(V) -> real,
    f: &F,
    scaler: RobustScaler<V>,
    data: Seq<V>,
    num_features: nat,
    c: int,
)
    requires
        crate::exact::exact(worth),
        scaler.learnt(f, data, num_features),
        0 <= c < num_features,
    ensures
        ({
            let q = column_quartiles(
                f,
                crate::preprocessing::table::column_of(data, num_features, c),
            );
            let scaled = |v: V| worth(centered(v, scaler.medians@[c], scaler.iqrs@[c]));
            &&& scaled(q.1) == 0real
            &&& worth(q.2) - worth(q.0) >= 1real ==> scaled(q.2) - scaled(q.0) == 1real
        }),
{
    let q = column_quartiles(f, crate::preprocessing::table::column_of(data, num_features, c));
    let distance = crate::number::minus(q.2, q.0);
    law_usable_scale(worth, distance);
    law_centering(worth, q.2, q.0, scaler.medians@[c], scaler.iqrs@[c]);
    let s = worth(scaler.iqrs@[c]);
    let d = worth(distance);
    if d >= 1real {
        crate::exact::lemma_tenth_positive::<V>(worth, 8);
        let t = worth(crate::number::ten_to::<V>(8));
        assert(d * t >= 1real) by (nonlinear_arith)
            requires
                d >= 1real,
                t >= 1real,
        ;
        let e = worth(centered(q.2, scaler.medians@[c], scaler.iqrs@[c])) - worth(
            centered(q.0, scaler.medians@[c], scaler.iqrs@[c]),
        );
        assert(e == 1real) by (nonlinear_arith)
            requires
                e * s == d,
                s == d,
                d >= 1real,
        ;
    }
}

/// The finite numbers of two lists, one after the other, are those of the whole;
/// a finite number stays and any other goes.
pub proof fn law_finite_numbers_stay<V: Number>(a: Seq<V>, b: Seq<V>, v: V)
    ensures
        finite_of(a + b) == finite_of(a) + finite_of(b),
        !crate::number::missing(v) && crate::number::below(v, crate::number::highest())
            && crate::number::above(v, crate::number::lowest()) ==> finite_of(seq![v]) == seq![v],
        crate::number::missing(v) || !crate::number::below(v, crate::number::highest())
            || !crate::number::above(v, crate::number::lowest()) ==> finite_of(seq![v]).len() == 0,
{
    let keep = |v: V| crate::number::finite(v);
    Seq::filter_distributes_over_add(a, b, keep);
    reveal(Seq::filter);
    assert(seq![v].drop_last() =~= Seq::<V>::empty());
    assert(seq![v].last() == v);
    assert(Seq::<V>::empty().filter(keep) =~= Seq::<V>::empty());
    assert(Seq::<V>::empty().push(v) =~= seq![v]);
}

} // verus!
