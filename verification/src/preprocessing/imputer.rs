//! Filling in missing numbers, and marking where they were missing.

use crate::error::{Result, TreeBoostError};
use crate::functions::Functions;
use crate::number::{is_missing, sum, Number};
use crate::preprocessing::table::{map_cells, read_column};
use crate::text::{decimal_string, join2, join3, join5};
use vstd::prelude::*;

verus! {

/// What a missing number is filled in with.
#[derive(Debug, Clone, Copy)]
pub enum ImputeStrategy<V> {
    /// The mean of the column.
    Mean,
    /// The median of the column.
    Median,
    /// The most frequent number of the column.
    Mode,
    /// A given number.
    Constant(V),
}

impl<V> Default for ImputeStrategy<V> {
    fn default() -> (r: Self)
        ensures
            r == ImputeStrategy::<V>::Mean,
    {
        ImputeStrategy::Mean
    }
}

/// The numbers of a list that are not missing.
pub open spec fn present_of<V: Number>(list: Seq<V>) -> Seq<V> {
    list.filter(|v: V| !crate::number::missing(v))
}

/// No entry is above a later one.
pub open spec fn ascending<V: Number>(list: Seq<V>) -> bool {
    forall|i: int, j: int|
        0 <= i <= j < list.len() ==> !crate::number::above(#[trigger] list[i], #[trigger] list[j])
}

/// The middle of a sorted list: the middle entry, or half the sum of the two in
/// the middle; zero, if there is none.
pub open spec fn middle<V: Number>(sorted: Seq<V>) -> V {
    let n = sorted.len() as int;
    if n == 0 {
        crate::number::small(0)
    } else if n % 2 == 0 {
        crate::number::over(
            crate::number::plus(sorted[n / 2 - 1], sorted[n / 2]),
            crate::number::small(2),
        )
    } else {
        sorted[n / 2]
    }
}

/// `r` is the middle of a list, once it is sorted.
pub open spec fn is_median<V: Number>(list: Seq<V>, r: V) -> bool {
    exists|sorted: Seq<V>|
        #[trigger] ascending(sorted) && sorted.to_multiset() == list.to_multiset() && r == middle(
            sorted,
        )
}

/// How many entries of a list have the same key.
pub open spec fn key_count<V, F: Functions<V>>(f: &F, list: Seq<V>, key: i64) -> nat {
    list.filter(|v: V| crate::functions::hundredths_of(f, v) == key).len()
}

/// `r` is the first entry of a list with its key, and no key is more frequent.
pub open spec fn is_mode<V: Number, F: Functions<V>>(f: &F, list: Seq<V>, r: V) -> bool {
    if list.len() == 0 {
        r == crate::number::small::<V>(0)
    } else {
        exists|i: int|
            {
                &&& 0 <= i < list.len()
                &&& #[trigger] list[i] == r
                &&& forall|j: int|
                    0 <= j < i ==> crate::functions::hundredths_of(f, #[trigger] list[j])
                        != crate::functions::hundredths_of(f, r)
                &&& forall|j: int|
                    0 <= j < list.len() ==> key_count(
                        f,
                        list,
                        crate::functions::hundredths_of(f, #[trigger] list[j]),
                    ) <= key_count(f, list, crate::functions::hundredths_of(f, r))
            }
    }
}

/// Sorts a list of numbers none of which is missing.
pub fn sort_numbers<V: Number>(values: &[V]) -> (r: Vec<V>)
    requires
        crate::number::arithmetic::<V>(),
        crate::number::ordered::<V>(),
        crate::number::ranked::<V>(),
        forall|i: int|
            0 <= i < values.len() ==> !crate::number::missing(#[trigger] values[i]),
    ensures
        ascending(r@),
        r@.to_multiset() == values@.to_multiset(),
        r.len() == values.len(),
{
    broadcast use vstd::seq_lib::group_to_multiset_ensures;

    let mut sorted: Vec<V> = Vec::new();
    let mut n: usize = 0;
    assert(values@.take(0) =~= Seq::<V>::empty());
    while n < values.len()
        invariant
            crate::number::arithmetic::<V>(),
            crate::number::ordered::<V>(),
            crate::number::ranked::<V>(),
            forall|i: int|
                0 <= i < values.len() ==> !crate::number::missing(#[trigger] values[i]),
            n <= values.len(),
            sorted.len() == n,
            ascending(sorted@),
            sorted@.to_multiset() == values@.take(n as int).to_multiset(),
            forall|i: int|
                0 <= i < sorted.len() ==> !crate::number::missing(#[trigger] sorted[i]),
        decreases values.len() - n,
    {
        let v: V = values[n];
        let mut p: usize = sorted.len();
        while p > 0 && sorted[p - 1] > v
            invariant
                crate::number::arithmetic::<V>(),
                p <= sorted.len(),
                forall|i: int|
                    p <= i < sorted.len() ==> crate::number::above(#[trigger] sorted[i], v),
            decreases p,
        {
            p = p - 1;
        }
        let ghost before = sorted@;
        sorted.insert(p, v);
        proof {
            vstd::seq_lib::to_multiset_insert(before, p as int, v);
            assert(values@.take(n + 1) =~= values@.take(n as int).push(v));
            vstd::seq_lib::to_multiset_build(values@.take(n as int), v);
            assert(!crate::number::above(v, v));
            assert forall|i: int, j: int| 0 <= i <= j < sorted.len() implies
                !crate::number::above(#[trigger] sorted[i], #[trigger] sorted[j]) by {
                if i < p && j == p {
                    assert(sorted[i] == before[i]);
                    if p > 0 {
                        assert(!crate::number::above(before[i], before[p - 1]));
                        assert(!crate::number::above(before[p - 1], v));
                        assert(!crate::number::missing(before[i]));
                        assert(!crate::number::missing(before[p - 1]));
                        assert(!crate::number::missing(v));
                    }
                } else if i == p && j > p {
                    assert(sorted[j] == before[j - 1]);
                    assert(crate::number::above(before[j - 1], v));
                    if crate::number::above(v, before[j - 1]) {
                        assert(crate::number::above(v, v));
                    }
                } else if i < p && j > p {
                    assert(sorted[i] == before[i] && sorted[j] == before[j - 1]);
                } else if i > p {
                    assert(sorted[i] == before[i - 1] && sorted[j] == before[j - 1]);
                } else if j < p {
                    assert(sorted[i] == before[i] && sorted[j] == before[j]);
                }
            }
            assert forall|i: int| 0 <= i < sorted.len() implies !crate::number::missing(
                #[trigger] sorted[i],
            ) by {
                if i < p {
                    assert(sorted[i] == before[i]);
                } else if i > p {
                    assert(sorted[i] == before[i - 1]);
                }
            }
        }
        n = n + 1;
    }
    assert(values@.take(n as int) =~= values@);
    sorted
}

/// The median of a list of numbers none of which is missing; zero, if the list
/// is empty.
pub fn compute_median<V: Number>(values: &[V]) -> (r: V)
    requires
        crate::number::arithmetic::<V>(),
        crate::number::ordered::<V>(),
        crate::number::ranked::<V>(),
        forall|i: int|
            0 <= i < values.len() ==> !crate::number::missing(#[trigger] values[i]),
    ensures
        is_median(values@, r),
{
    let sorted = sort_numbers(values);
    let len: usize = sorted.len();
    assert(ascending(sorted@));
    if len == 0 {
        V::from(0u8)
    } else if len % 2 == 0 {
        let two: V = V::from(2u8);
        (sorted[len / 2 - 1] + sorted[len / 2]) / two
    } else {
        sorted[len / 2]
    }
}

/// How many entries of a list have a key.
fn count_key<V: Number, F: Functions<V>>(f: &F, values: &[V], key: i64) -> (r: usize)
    requires
        crate::functions::computes(f),
    ensures
        r == key_count(f, values@, key),
{
    let ghost keep = |v: V| crate::functions::hundredths_of(f, v) == key;
    let mut count: usize = 0;
    let mut i: usize = 0;
    proof {
        reveal(Seq::filter);
        assert(values@.take(0).filter(keep) =~= Seq::<V>::empty());
    }
    while i < values.len()
        invariant
            crate::functions::computes(f),
            i <= values.len(),
            keep == (|v: V| crate::functions::hundredths_of(f, v) == key),
            count == values@.take(i as int).filter(keep).len(),
            count <= i,
        decreases values.len() - i,
    {
        proof {
            reveal(Seq::filter);
            assert(values@.take(i + 1).drop_last() =~= values@.take(i as int));
            assert(values@.take(i + 1).last() == values[i as int]);
        }
        if f.hundredths(values[i]) == key {
            count = count + 1;
        }
        i = i + 1;
    }
    assert(values@.take(i as int) =~= values@);
    count
}

/// The most frequent number of a list, where numbers that agree to the nearest
/// hundredth count as one, and the first of them stands for all; zero, if the
/// list is empty.
pub fn compute_mode<V: Number, F: Functions<V>>(values: &[V], f: &F) -> (r: V)
    requires
        crate::number::arithmetic::<V>(),
        crate::functions::computes(f),
    ensures
        is_mode(f, values@, r),
{
    if values.len() == 0 {
        return V::from(0u8);
    }
    let mut best: usize = 0;
    let mut best_key: i64 = f.hundredths(values[0]);
    let mut best_count: usize = count_key(f, values, best_key);
    let mut i: usize = 1;
    while i < values.len()
        invariant
            crate::functions::computes(f),
            best < i <= values.len(),
            best_key == crate::functions::hundredths_of(f, values[best as int]),
            best_count == key_count(f, values@, best_key),
            forall|j: int|
                0 <= j < best ==> crate::functions::hundredths_of(f, #[trigger] values[j])
                    != best_key,
            forall|j: int|
                0 <= j < i ==> key_count(
                    f,
                    values@,
                    crate::functions::hundredths_of(f, #[trigger] values[j]),
                ) <= best_count,
        decreases values.len() - i,
    {
        let key: i64 = f.hundredths(values[i]);
        let count: usize = count_key(f, values, key);
        if count > best_count {
            assert forall|j: int| 0 <= j < i implies crate::functions::hundredths_of(
                f,
                #[trigger] values[j],
            ) != key by {
                if crate::functions::hundredths_of(f, values[j]) == key {
                    assert(key_count(f, values@, key) <= best_count);
                }
            }
            best = i;
            best_key = key;
            best_count = count;
        }
        i = i + 1;
    }
    values[best]
}

/// Fills in missing numbers.
#[derive(Debug, Clone)]
pub struct SimpleImputer<V> {
    /// What a missing number is filled in with.
    pub strategy: ImputeStrategy<V>,
    /// What the missing numbers of each column are filled in with.
    pub fill_values: Vec<V>,
    /// Whether that has been learnt.
    pub fitted: bool,
}

/// `r` is what the missing numbers of a column are filled in with: a constant
/// as it stands, and else what the numbers present give, or zero where none is.
pub open spec fn fills<V: Number, F: Functions<V>>(
    strategy: ImputeStrategy<V>,
    f: &F,
    column: Seq<V>,
    r: V,
) -> bool {
    let values = present_of(column);
    match strategy {
        ImputeStrategy::Constant(c) => r == c,
        _ if values.len() == 0 => r == crate::number::small::<V>(0),
        ImputeStrategy::Mean => r == crate::preprocessing::scaler::mean_of(f, values),
        ImputeStrategy::Median => is_median(values, r),
        ImputeStrategy::Mode => is_mode(f, values, r),
    }
}

/// The entries of columns with missing numbers filled in.
pub open spec fn filling<V: Number>(fill_values: Seq<V>) -> spec_fn(V, int) -> V {
    |v: V, col: int|
        if crate::number::missing(v) {
            fill_values[col]
        } else {
            v
        }
}

/// The complaint about a table without entries.
pub open spec fn no_data_text() -> Seq<char> {
    "SimpleImputer::fit() received empty data. Provide at least 1 data point."@
}

/// The complaint about a number of entries that does not make whole rows.
pub open spec fn bad_layout_text(len: nat, num_features: nat) -> Seq<char> {
    "SimpleImputer::fit() received invalid data layout: "@ + crate::text::decimal(len)
        + " elements not divisible by "@ + crate::text::decimal(num_features)
        + " features. Ensure data is row-major: num_rows × num_features."@
}

/// The complaint about an imputer that has learnt nothing.
pub open spec fn not_fitted_text() -> Seq<char> {
    "SimpleImputer::transform() called before fitting. Call fit() first to learn fill values."@
}

/// The complaint about a number of features other than that fitted.
pub open spec fn wrong_width_text(fitted: nat, given: nat) -> Seq<char> {
    "SimpleImputer::transform() feature count mismatch: fitted with "@ + crate::text::decimal(
        fitted,
    ) + " features, but transform() called with "@ + crate::text::decimal(given)
        + " features. Ensure transform data has same feature count as training data."@
}

/// What is wrong with a table to be fitted, if anything.
pub open spec fn fit_error(len: nat, num_features: nat) -> Option<Seq<char>> {
    if len == 0 {
        Some(no_data_text())
    } else if len % num_features != 0 {
        Some(bad_layout_text(len, num_features))
    } else {
        None
    }
}

impl<V: Number> SimpleImputer<V> {
    /// What the missing numbers of each column are filled in with has been
    /// learnt from a table.
    pub open spec fn learnt<F: Functions<V>>(
        &self,
        f: &F,
        data: Seq<V>,
        num_features: nat,
    ) -> bool {
        &&& self.fitted
        &&& self.fill_values@.len() == num_features
        &&& forall|c: int|
            0 <= c < num_features ==> fills(
                self.strategy,
                f,
                crate::preprocessing::table::column_of(data, num_features, c),
                #[trigger] self.fill_values@[c],
            )
    }

    /// What is wrong with a table to be transformed, if anything.
    pub open spec fn transform_error(&self, num_features: nat) -> Option<Seq<char>> {
        if !self.fitted {
            Some(not_fitted_text())
        } else if self.fill_values@.len() != num_features {
            Some(wrong_width_text(self.fill_values@.len(), num_features))
        } else {
            None
        }
    }

    /// What comes of learning from a table: the imputer becomes `after`, or the
    /// layout of the table is wrong.
    pub open spec fn fits<F: Functions<V>>(
        &self,
        after: &Self,
        f: &F,
        data: Seq<V>,
        num_features: nat,
        r: Result<()>,
    ) -> bool {
        let text = fit_error(data.len(), num_features);
        match r {
            Ok(_) => text is None && after.strategy == self.strategy && after.learnt(
                f,
                data,
                num_features,
            ),
            Err(e) => text is Some && e.is_data(text->Some_0) && *after == *self,
        }
    }

    /// What comes of filling in a table: it becomes `after`, or nothing has been
    /// learnt or the table does not fit.
    pub open spec fn imputes(
        &self,
        num_features: nat,
        before: Seq<V>,
        after: Seq<V>,
        r: Result<()>,
    ) -> bool {
        let text = self.transform_error(num_features);
        match r {
            Ok(_) => text is None && crate::preprocessing::table::maps_cells(
                before,
                after,
                num_features,
                filling(self.fill_values@),
            ),
            Err(e) => text is Some && e.is_config(text->Some_0) && after == before,
        }
    }

    /// An imputer that has learnt nothing.
    pub fn new(strategy: ImputeStrategy<V>) -> (r: Self)
        ensures
            r.strategy == strategy,
            r.fill_values@.len() == 0,
            !r.fitted,
    {
        SimpleImputer { strategy, fill_values: Vec::new(), fitted: false }
    }

    /// An imputer that fills in the mean.
    pub fn mean() -> (r: Self)
        ensures
            r.strategy == ImputeStrategy::<V>::Mean,
            r.fill_values@.len() == 0,
            !r.fitted,
    {
        SimpleImputer::new(ImputeStrategy::Mean)
    }

    /// An imputer that fills in the median.
    pub fn median() -> (r: Self)
        ensures
            r.strategy == ImputeStrategy::<V>::Median,
            r.fill_values@.len() == 0,
            !r.fitted,
    {
        SimpleImputer::new(ImputeStrategy::Median)
    }

    /// An imputer that fills in the most frequent number.
    pub fn mode() -> (r: Self)
        ensures
            r.strategy == ImputeStrategy::<V>::Mode,
            r.fill_values@.len() == 0,
            !r.fitted,
    {
        SimpleImputer::new(ImputeStrategy::Mode)
    }

    /// An imputer that fills in a given number.
    pub fn constant(value: V) -> (r: Self)
        ensures
            r.strategy == ImputeStrategy::Constant(value),
            r.fill_values@.len() == 0,
            !r.fitted,
    {
        SimpleImputer::new(ImputeStrategy::Constant(value))
    }

    /// Learns what the missing numbers of each column are filled in with.
    pub fn fit<F: Functions<V>>(&mut self, data: &[V], num_features: usize, f: &F) -> (r: Result<
        (),
    >)
        requires
            crate::number::arithmetic::<V>(),
            crate::number::ordered::<V>(),
            crate::number::ranked::<V>(),
            crate::functions::computes(f),
            num_features > 0 || data.len() == 0,
        ensures
            old(self).fits(final(self), f, data@, num_features as nat, r),
    {
        if data.len() == 0 {
            return Err(
                TreeBoostError::Data(
                    "SimpleImputer::fit() received empty data. Provide at least 1 data point.".to_owned(),
                ),
            );
        }
        if data.len() % num_features != 0 {
            return Err(
                TreeBoostError::Data(
                    join5(
                        "SimpleImputer::fit() received invalid data layout: ",
                        decimal_string(data.len() as u64).as_str(),
                        " elements not divisible by ",
                        decimal_string(num_features as u64).as_str(),
                        " features. Ensure data is row-major: num_rows × num_features.",
                    ),
                ),
            );
        }
        let strategy = self.strategy;
        let mut fill_values: Vec<V> = Vec::new();
        let mut col: usize = 0;
        while col < num_features
            invariant
                crate::number::arithmetic::<V>(),
                crate::number::ordered::<V>(),
                crate::number::ranked::<V>(),
                crate::functions::computes(f),
                col <= num_features,
                fill_values.len() == col,
                forall|c: int|
                    0 <= c < col ==> fills(
                        strategy,
                        f,
                        crate::preprocessing::table::column_of(data@, num_features as nat, c),
                        #[trigger] fill_values[c],
                    ),
            decreases num_features - col,
        {
            let column = read_column(data, num_features, col);
            let values = keep_present(column.as_slice());
            let fill_value: V = match strategy {
                ImputeStrategy::Constant(c) => c,
                _ if values.len() == 0 => V::from(0u8),
                ImputeStrategy::Mean => {
                    let count: V = f.count(values.len());
                    sum(values.as_slice()) / count
                },
                ImputeStrategy::Median => compute_median(values.as_slice()),
                ImputeStrategy::Mode => compute_mode(values.as_slice(), f),
            };
            fill_values.push(fill_value);
            col = col + 1;
        }
        self.fill_values = fill_values;
        self.fitted = true;
        Ok(())
    }

    /// Fills in the missing numbers of a table in place.
    pub fn transform(&self, data: &mut [V], num_features: usize) -> (r: Result<()>)
        requires
            crate::number::arithmetic::<V>(),
            num_features > 0 || self.transform_error(num_features as nat) is Some,
        ensures
            self.imputes(num_features as nat, old(data)@, final(data)@, r),
    {
        if !self.fitted {
            return Err(
                TreeBoostError::Config(
                    "SimpleImputer::transform() called before fitting. Call fit() first to learn fill values.".to_owned(),
                ),
            );
        }
        if self.fill_values.len() != num_features {
            return Err(
                TreeBoostError::Config(
                    join5(
                        "SimpleImputer::transform() feature count mismatch: fitted with ",
                        decimal_string(self.fill_values.len() as u64).as_str(),
                        " features, but transform() called with ",
                        decimal_string(num_features as u64).as_str(),
                        " features. Ensure transform data has same feature count as training data.",
                    ),
                ),
            );
        }
        let fill_values = self.fill_values.as_slice();
        let change = |v: V, col: usize| -> (r: V)
            requires
                col < num_features,
                crate::number::arithmetic::<V>(),
                fill_values.len() == num_features,
            ensures
                r == (if crate::number::missing(v) {
                    fill_values[col as int]
                } else {
                    v
                }),
            {
                if is_missing(v) {
                    fill_values[col]
                } else {
                    v
                }
            };
        map_cells(data, num_features, &change, Ghost(filling(fill_values@)));
        Ok(())
    }

    /// Learns what missing numbers are filled in with, and fills them in.
    pub fn fit_transform<F: Functions<V>>(
        &mut self,
        data: &mut [V],
        num_features: usize,
        f: &F,
    ) -> (r: Result<()>)
        requires
            crate::number::arithmetic::<V>(),
            crate::number::ordered::<V>(),
            crate::number::ranked::<V>(),
            crate::functions::computes(f),
            num_features > 0 || old(data).len() == 0,
        ensures
            match r {
                Ok(_) => {
                    &&& fit_error(old(data)@.len(), num_features as nat) is None
                    &&& final(self).strategy == old(self).strategy
                    &&& final(self).learnt(f, old(data)@, num_features as nat)
                    &&& crate::preprocessing::table::maps_cells(
                        old(data)@,
                        final(data)@,
                        num_features as nat,
                        filling(final(self).fill_values@),
                    )
                },
                Err(e) => {
                    let text = fit_error(old(data)@.len(), num_features as nat);
                    &&& text is Some && e.is_data(text->Some_0)
                    &&& *final(self) == *old(self)
                    &&& final(data)@ == old(data)@
                },
            },
    {
        match self.fit(data, num_features, f) {
            Ok(_) => self.transform(data, num_features),
            Err(e) => Err(e),
        }
    }

    /// Whether fill values have been learnt.
    pub fn is_fitted(&self) -> (r: bool)
        ensures
            r == self.fitted,
    {
        self.fitted
    }

    /// What the missing numbers of each column are filled in with.
    pub fn fill_values(&self) -> (r: &[V])
        ensures
            r@ == self.fill_values@,
    {
        self.fill_values.as_slice()
    }

    /// What a missing number is filled in with.
    pub fn strategy(&self) -> (r: ImputeStrategy<V>)
        ensures
            r == self.strategy,
    {
        self.strategy
    }
}

/// Where the fill values are no missing numbers, none is missing once they have
/// been filled in, and the numbers that were there are untouched.
pub proof fn law_filled_in<V: Number>(
    before: Seq<V>,
    after: Seq<V>,
    fill_values: Seq<V>,
    num_features: nat,
    i: int,
)
    requires
        num_features > 0,
        fill_values.len() == num_features,
        before.len() % num_features == 0,
        forall|c: int|
            0 <= c < num_features ==> !crate::number::missing(#[trigger] fill_values[c]),
        crate::preprocessing::table::maps_cells(
            before,
            after,
            num_features,
            filling(fill_values),
        ),
        0 <= i < before.len(),
    ensures
        !crate::number::missing(after[i]),
        !crate::number::missing(before[i]) ==> after[i] == before[i],
{
    let k = num_features as int;
    let n = before.len() as int;
    assert(n / k * k == n) by (nonlinear_arith)
        requires
            n % k == 0,
            k > 0,
    ;
    assert(!crate::number::missing(fill_values[i % k]));
}

/// The numbers of a list that are not missing.
pub fn keep_present<V: Number>(list: &[V]) -> (r: Vec<V>)
    requires
        crate::number::arithmetic::<V>(),
    ensures
        r@ == present_of(list@),
        forall|i: int| 0 <= i < r.len() ==> !crate::number::missing(#[trigger] r[i]),
{
    let ghost keep = |v: V| !crate::number::missing(v);
    let mut kept: Vec<V> = Vec::new();
    let mut i: usize = 0;
    proof {
        reveal(Seq::filter);
        assert(list@.take(0).filter(keep) =~= Seq::<V>::empty());
    }
    while i < list.len()
        invariant
            crate::number::arithmetic::<V>(),
            i <= list.len(),
            keep == (|v: V| !crate::number::missing(v)),
            kept@ == list@.take(i as int).filter(keep),
            forall|j: int| 0 <= j < kept.len() ==> !crate::number::missing(#[trigger] kept[j]),
        decreases list.len() - i,
    {
        proof {
            reveal(Seq::filter);
            assert(list@.take(i + 1).drop_last() =~= list@.take(i as int));
            assert(list@.take(i + 1).last() == list[i as int]);
        }
        let v: V = list[i];
        if !is_missing(v) {
            kept.push(v);
        }
        i = i + 1;
    }
    assert(list@.take(i as int) =~= list@);
    kept
}

/// A column has a missing number.
pub open spec fn has_missing<V: Number>(data: Seq<V>, num_features: nat, col: int) -> bool {
    exists|row: int|
        0 <= row < crate::preprocessing::table::row_count(data.len(), num_features)
            && crate::number::missing(
            #[trigger] crate::preprocessing::table::cell(data, num_features, row, col),
        )
}

/// The columns that get an indicator, in order: all, or those with a missing
/// number.
pub open spec fn marked_columns<V: Number>(
    data: Seq<V>,
    num_features: nat,
    only_if_missing: bool,
) -> Seq<int> {
    Seq::new(num_features, |c: int| c).filter(
        |c: int| !only_if_missing || has_missing(data, num_features, c),
    )
}

/// The name of the indicator of a column: that of the column, or `f` and its
/// place where it has none, with a suffix.
pub open spec fn indicator_name(
    feature_names: Seq<Seq<char>>,
    suffix: Seq<char>,
    col: int,
) -> Seq<char> {
    if col < feature_names.len() {
        feature_names[col] + suffix
    } else {
        "f"@ + crate::text::decimal(col as nat) + suffix
    }
}

/// One where an entry is missing, zero where it is not.
pub open spec fn indicator<V: Number>(data: Seq<V>, num_features: nat, row: int, col: int) -> V {
    if crate::number::missing(
        crate::preprocessing::table::cell(data, num_features, row, col),
    ) {
        crate::number::small(1)
    } else {
        crate::number::small(0)
    }
}

/// The indicators of the given columns, row by row.
pub open spec fn indicators_of<V: Number>(
    data: Seq<V>,
    num_features: nat,
    marked: Seq<int>,
) -> Seq<V> {
    let k = marked.len() as int;
    Seq::new(
        (crate::preprocessing::table::row_count(data.len(), num_features) * marked.len()) as nat,
        |i: int| indicator(data, num_features, i / k, marked[i % k]),
    )
}

/// The names of the indicators of the given columns.
pub open spec fn indicator_names_of(
    feature_names: Seq<Seq<char>>,
    suffix: Seq<char>,
    marked: Seq<int>,
) -> Seq<Seq<char>> {
    Seq::new(marked.len(), |j: int| indicator_name(feature_names, suffix, marked[j]))
}

/// A table with the indicators of the given columns behind each row.
pub open spec fn with_indicators<V: Number>(
    data: Seq<V>,
    num_features: nat,
    marked: Seq<int>,
) -> Seq<V> {
    let width = (num_features + marked.len()) as int;
    Seq::new(
        (crate::preprocessing::table::row_count(data.len(), num_features) * width) as nat,
        |i: int|
            if i % width < num_features {
                crate::preprocessing::table::cell(data, num_features, i / width, i % width)
            } else {
                indicator(data, num_features, i / width, marked[i % width - num_features])
            },
    )
}

/// Marks where numbers are missing, in columns of their own.
#[derive(Debug, Clone)]
pub struct IndicatorImputer {
    /// What the name of an indicator ends in.
    pub suffix: String,
    /// Whether only columns with missing numbers get an indicator.
    pub only_if_missing: bool,
}

impl Default for IndicatorImputer {
    fn default() -> (r: Self)
        ensures
            r.suffix@ == Seq::<char>::empty(),
            !r.only_if_missing,
    {
        let suffix = String::new();
        IndicatorImputer { suffix, only_if_missing: false }
    }
}

impl IndicatorImputer {
    /// Indicators with the suffix `_missing`, for columns with missing numbers.
    pub fn new() -> (r: Self)
        ensures
            r.suffix@ == "_missing"@,
            r.only_if_missing,
    {
        IndicatorImputer { suffix: "_missing".to_owned(), only_if_missing: true }
    }

    /// Sets what the name of an indicator ends in.
    pub fn with_suffix(self, suffix: &str) -> (r: Self)
        ensures
            r.suffix@ == suffix@,
            r.only_if_missing == self.only_if_missing,
    {
        IndicatorImputer { suffix: suffix.to_owned(), only_if_missing: self.only_if_missing }
    }

    /// Gives all columns an indicator.
    pub fn for_all_columns(self) -> (r: Self)
        ensures
            r.suffix@ == self.suffix@,
            !r.only_if_missing,
    {
        IndicatorImputer { suffix: self.suffix, only_if_missing: false }
    }

    /// Whether a column has a missing number.
    fn column_has_missing<V: Number>(data: &[V], num_features: usize, col: usize) -> (r: bool)
        requires
            crate::number::arithmetic::<V>(),
            col < num_features,
        ensures
            r == has_missing(data@, num_features as nat, col as int),
    {
        let column = read_column(data, num_features, col);
        let mut row: usize = 0;
        while row < column.len()
            invariant
                crate::number::arithmetic::<V>(),
                row <= column.len(),
                column@ == crate::preprocessing::table::column_of(
                    data@,
                    num_features as nat,
                    col as int,
                ),
                forall|i: int|
                    0 <= i < row ==> !crate::number::missing(
                        #[trigger] crate::preprocessing::table::cell(
                            data@,
                            num_features as nat,
                            i,
                            col as int,
                        ),
                    ),
            decreases column.len() - row,
        {
            assert(column[row as int] == crate::preprocessing::table::cell(
                data@,
                num_features as nat,
                row as int,
                col as int,
            ));
            if is_missing(column[row]) {
                return true;
            }
            row = row + 1;
        }
        false
    }

    /// The columns that get an indicator.
    fn find_marked<V: Number>(&self, data: &[V], num_features: usize) -> (r: Vec<usize>)
        requires
            crate::number::arithmetic::<V>(),
        ensures
            r@.map_values(|c: usize| c as int) == marked_columns(
                data@,
                num_features as nat,
                self.only_if_missing,
            ),
            forall|j: int| 0 <= j < r.len() ==> (#[trigger] r[j]) < num_features,
            r.len() <= num_features,
    {
        let ghost all = Seq::new(num_features as nat, |c: int| c);
        let ghost keep = |c: int|
            !self.only_if_missing || has_missing(data@, num_features as nat, c);
        let mut marked: Vec<usize> = Vec::new();
        let mut col: usize = 0;
        proof {
            reveal(Seq::filter);
            assert(all.take(0).filter(keep) =~= Seq::<int>::empty());
            assert(marked@.map_values(|c: usize| c as int) =~= Seq::<int>::empty());
        }
        while col < num_features
            invariant
                crate::number::arithmetic::<V>(),
                col <= num_features,
                all == Seq::new(num_features as nat, |c: int| c),
                keep == (|c: int|
                    !self.only_if_missing || has_missing(data@, num_features as nat, c)),
                marked@.map_values(|c: usize| c as int) == all.take(col as int).filter(keep),
                forall|j: int| 0 <= j < marked.len() ==> (#[trigger] marked[j]) < num_features,
                marked.len() <= col,
            decreases num_features - col,
        {
            let ghost before = marked@;
            proof {
                reveal(Seq::filter);
                assert(all.take(col + 1).drop_last() =~= all.take(col as int));
                assert(all.take(col + 1).last() == col);
            }
            if !self.only_if_missing || Self::column_has_missing(data, num_features, col) {
                marked.push(col);
                assert(marked@.map_values(|c: usize| c as int) =~= before.map_values(
                    |c: usize| c as int,
                ).push(col as int));
            }
            col = col + 1;
        }
        assert(all.take(col as int) =~= all);
        marked
    }

    /// The names of the indicators of the given columns.
    fn name_marked(&self, marked: &[usize], feature_names: &[String]) -> (r: Vec<String>)
        ensures
            crate::text::texts(r@) == indicator_names_of(
                crate::text::texts(feature_names@),
                self.suffix@,
                marked@.map_values(|c: usize| c as int),
            ),
    {
        let ghost goal = indicator_names_of(
            crate::text::texts(feature_names@),
            self.suffix@,
            marked@.map_values(|c: usize| c as int),
        );
        let mut names: Vec<String> = Vec::new();
        let mut j: usize = 0;
        while j < marked.len()
            invariant
                j <= marked.len(),
                goal == indicator_names_of(
                    crate::text::texts(feature_names@),
                    self.suffix@,
                    marked@.map_values(|c: usize| c as int),
                ),
                names.len() == j,
                forall|i: int| 0 <= i < j ==> (#[trigger] names[i])@ == goal[i],
            decreases marked.len() - j,
        {
            let col: usize = marked[j];
            let name = if col < feature_names.len() {
                join2(feature_names[col].as_str(), self.suffix.as_str())
            } else {
                join3("f", decimal_string(col as u64).as_str(), self.suffix.as_str())
            };
            names.push(name);
            j = j + 1;
        }
        assert(crate::text::texts(names@) =~= goal);
        names
    }

    /// The indicators of a table, row by row, and their names.
    pub fn create_indicators<V: Number>(
        &self,
        data: &[V],
        num_features: usize,
        feature_names: &[String],
    ) -> (r: (Vec<V>, Vec<String>))
        requires
            crate::number::arithmetic::<V>(),
            num_features > 0,
        ensures
            ({
                let marked = marked_columns(data@, num_features as nat, self.only_if_missing);
                &&& r.0@ == indicators_of(data@, num_features as nat, marked)
                &&& crate::text::texts(r.1@) == indicator_names_of(
                    crate::text::texts(feature_names@),
                    self.suffix@,
                    marked,
                )
            }),
    {
        let marked = self.find_marked(data, num_features);
        let names = self.name_marked(marked.as_slice(), feature_names);
        let ghost columns = marked@.map_values(|c: usize| c as int);
        let ghost goal = indicators_of(data@, num_features as nat, columns);
        let one: V = V::from(1u8);
        let zero: V = V::from(0u8);
        let len: usize = data.len();
        let num_rows: usize = len / num_features;
        let mut indicators: Vec<V> = Vec::new();
        let mut row: usize = 0;
        while row < num_rows
            invariant
                crate::number::arithmetic::<V>(),
                num_features > 0,
                len == data@.len(),
                num_rows == crate::preprocessing::table::row_count(len as nat, num_features as nat),
                row <= num_rows,
                one == crate::number::small::<V>(1),
                zero == crate::number::small::<V>(0),
                columns == marked@.map_values(|c: usize| c as int),
                goal == indicators_of(data@, num_features as nat, columns),
                forall|j: int| 0 <= j < marked.len() ==> (#[trigger] marked[j]) < num_features,
                indicators.len() == row * marked.len(),
                forall|i: int| 0 <= i < indicators.len() ==> #[trigger] indicators[i] == goal[i],
            decreases num_rows - row,
        {
            let mut j: usize = 0;
            proof {
                assert((row + 1) * marked.len() == row * marked.len() + marked.len())
                    by (nonlinear_arith);
                assert((row + 1) * marked.len() <= num_rows * marked.len()) by (nonlinear_arith)
                    requires
                        row < num_rows,
                        marked.len() >= 0,
                ;
            }
            while j < marked.len()
                invariant
                    crate::number::arithmetic::<V>(),
                    num_features > 0,
                    len == data@.len(),
                    num_rows == crate::preprocessing::table::row_count(
                        len as nat,
                        num_features as nat,
                    ),
                    row < num_rows,
                    (row + 1) * marked.len() <= num_rows * marked.len(),
                    (row + 1) * marked.len() == row * marked.len() + marked.len(),
                    one == crate::number::small::<V>(1),
                    zero == crate::number::small::<V>(0),
                    columns == marked@.map_values(|c: usize| c as int),
                    goal == indicators_of(data@, num_features as nat, columns),
                    forall|j: int| 0 <= j < marked.len() ==> (#[trigger] marked[j]) < num_features,
                    j <= marked.len(),
                    indicators.len() == row * marked.len() + j,
                    forall|i: int|
                        0 <= i < indicators.len() ==> #[trigger] indicators[i] == goal[i],
                decreases marked.len() - j,
            {
                let col: usize = marked[j];
                proof {
                    crate::preprocessing::table::lemma_cell_in_range(
                        len as nat,
                        num_features as nat,
                        row as int,
                        col as int,
                    );
                    vstd::arithmetic::div_mod::lemma_fundamental_div_mod_converse(
                        row * marked.len() + j,
                        marked.len() as int,
                        row as int,
                        j as int,
                    );
                    assert(columns[j as int] == col);
                }
                indicators.push(
                    if is_missing(data[row * num_features + col]) {
                        one
                    } else {
                        zero
                    },
                );
                j = j + 1;
            }
            row = row + 1;
        }
        assert(indicators@ =~= goal);
        (indicators, names)
    }

    /// A table with its indicators behind each row, and the names of all
    /// columns; the table itself, if no column gets an indicator.
    pub fn transform_with_indicators<V: Number>(
        &self,
        data: &[V],
        num_features: usize,
        feature_names: &[String],
    ) -> (r: (Vec<V>, Vec<String>))
        requires
            crate::number::arithmetic::<V>(),
            num_features > 0,
            num_features * 2 <= usize::MAX,
        ensures
            ({
                let marked = marked_columns(data@, num_features as nat, self.only_if_missing);
                &&& r.0@ == (if marked.len() == 0 {
                    data@
                } else {
                    with_indicators(data@, num_features as nat, marked)
                })
                &&& crate::text::texts(r.1@) == crate::text::texts(feature_names@)
                    + indicator_names_of(
                    crate::text::texts(feature_names@),
                    self.suffix@,
                    marked,
                )
            }),
    {
        let (indicators, indicator_names) = self.create_indicators(
            data,
            num_features,
            feature_names,
        );
        let ghost marked = marked_columns(data@, num_features as nat, self.only_if_missing);
        let num_indicators: usize = indicator_names.len();
        proof {
            assert(crate::text::texts(indicator_names@).len() == num_indicators);
            lemma_marked_in_range(data@, num_features as nat, self.only_if_missing);
        }
        let names = concat_names(feature_names, indicator_names.as_slice());
        if num_indicators == 0 {
            return (crate::tree::vector_tree::copy_list(data), names);
        }
        let ghost goal = with_indicators(data@, num_features as nat, marked);
        let width: usize = num_features + num_indicators;
        let len: usize = data.len();
        let num_rows: usize = len / num_features;
        let mut combined: Vec<V> = Vec::new();
        let mut row: usize = 0;
        while row < num_rows
            invariant
                num_features > 0,
                len == data@.len(),
                num_rows == crate::preprocessing::table::row_count(len as nat, num_features as nat),
                row <= num_rows,
                num_indicators == marked.len(),
                0 < num_indicators <= num_features,
                width == num_features + num_indicators,
                goal == with_indicators(data@, num_features as nat, marked),
                indicators@ == indicators_of(data@, num_features as nat, marked),
                combined.len() == row * width,
                forall|i: int| 0 <= i < combined.len() ==> #[trigger] combined[i] == goal[i],
            decreases num_rows - row,
        {
            proof {
                assert((row + 1) * width == row * width + width) by (nonlinear_arith);
                assert((row + 1) * width <= num_rows * width) by (nonlinear_arith)
                    requires
                        row < num_rows,
                        width >= 0,
                ;
                assert(row * num_indicators + num_indicators <= num_rows * num_indicators && 0
                    <= row * num_indicators) by (nonlinear_arith)
                    requires
                        row < num_rows,
                        num_indicators >= 0,
                ;
                assert(num_rows * num_indicators <= num_rows * num_features) by (nonlinear_arith)
                    requires
                        num_indicators <= num_features,
                        num_rows >= 0,
                ;
                assert(num_rows * num_features <= len) by (nonlinear_arith)
                    requires
                        num_rows == len as int / num_features as int,
                        num_features > 0,
                        len >= 0,
                ;
            }
            let mut col: usize = 0;
            while col < width
                invariant
                    num_features > 0,
                    len == data@.len(),
                    num_rows == crate::preprocessing::table::row_count(
                        len as nat,
                        num_features as nat,
                    ),
                    row < num_rows,
                    row * num_indicators + num_indicators <= num_rows * num_indicators <= len,
                    0 <= row * num_indicators,
                    (row + 1) * width <= num_rows * width,
                    (row + 1) * width == row * width + width,
                    num_indicators == marked.len(),
                    width == num_features + num_indicators,
                    goal == with_indicators(data@, num_features as nat, marked),
                    indicators@ == indicators_of(data@, num_features as nat, marked),
                    col <= width,
                    combined.len() == row * width + col,
                    forall|i: int| 0 <= i < combined.len() ==> #[trigger] combined[i] == goal[i],
                decreases width - col,
            {
                proof {
                    vstd::arithmetic::div_mod::lemma_fundamental_div_mod_converse(
                        row * width + col,
                        width as int,
                        row as int,
                        col as int,
                    );
                }
                if col < num_features {
                    proof {
                        crate::preprocessing::table::lemma_cell_in_range(
                            len as nat,
                            num_features as nat,
                            row as int,
                            col as int,
                        );
                    }
                    combined.push(data[row * num_features + col]);
                } else {
                    let j: usize = col - num_features;
                    proof {
                        vstd::arithmetic::div_mod::lemma_fundamental_div_mod_converse(
                            row * num_indicators + j,
                            num_indicators as int,
                            row as int,
                            j as int,
                        );
                    }
                    combined.push(indicators[row * num_indicators + j]);
                }
                col = col + 1;
            }
            row = row + 1;
        }
        assert(combined@ =~= goal);
        (combined, names)
    }
}

/// There are at most as many indicators as columns.
proof fn lemma_marked_in_range<V: Number>(data: Seq<V>, num_features: nat, only_if_missing: bool)
    ensures
        marked_columns(data, num_features, only_if_missing).len() <= num_features,
{
    let all = Seq::new(num_features, |c: int| c);
    all.lemma_filter_len(|c: int| !only_if_missing || has_missing(data, num_features, c));
}

/// The names of one list, and those of another behind them.
fn concat_names(a: &[String], b: &[String]) -> (r: Vec<String>)
    ensures
        crate::text::texts(r@) == crate::text::texts(a@) + crate::text::texts(b@),
{
    let mut list: Vec<String> = Vec::new();
    let mut i: usize = 0;
    while i < a.len()
        invariant
            i <= a.len(),
            list.len() == i,
            forall|k: int| 0 <= k < i ==> (#[trigger] list[k])@ == a[k]@,
        decreases a.len() - i,
    {
        list.push(a[i].as_str().to_owned());
        i = i + 1;
    }
    let mut j: usize = 0;
    while j < b.len()
        invariant
            j <= b.len(),
            list.len() == a.len() + j,
            forall|k: int| 0 <= k < a.len() ==> (#[trigger] list[k])@ == a[k]@,
            forall|k: int| a.len() <= k < list.len() ==> (#[trigger] list[k])@ == b[k - a.len()]@,
        decreases b.len() - j,
    {
        list.push(b[j].as_str().to_owned());
        j = j + 1;
    }
    assert(crate::text::texts(list@) =~= crate::text::texts(a@) + crate::text::texts(b@));
    list
}

/// The numbers present are the entries that are not missing, and no others.
pub proof fn law_present_numbers<V: Number>(list: Seq<V>, v: V)
    ensures
        present_of(list).contains(v) <==> list.contains(v) && !crate::number::missing(v),
        present_of(list).len() <= list.len(),
{
    let keep = |x: V| !crate::number::missing(x);
    list.lemma_filter_len(keep);
    if list.contains(v) && keep(v) {
        let i = choose|i: int| 0 <= i < list.len() && list[i] == v;
        list.lemma_filter_contains(keep, i);
    }
    if present_of(list).contains(v) {
        list.lemma_filter_contains_rev(keep, v);
        let i = choose|i: int| 0 <= i < present_of(list).len() && present_of(list)[i] == v;
        list.lemma_filter_pred(keep, i);
    }
}

/// The median lies in the middle of the sorted numbers: none of the lower half is
/// above it, none of the upper half below it, and it is as far from the last of
/// the lower half as from the first of the upper half.
pub proof fn law_median_lies_in_the_middle<V: Number>(
    worth: spec_fn(V) -> real,
    list: Seq<V>,
    r: V,
)
    requires
        crate::exact::exact(worth),
        is_median(list, r),
        list.len() > 0,
    ensures
        exists|sorted: Seq<V>|
            {
                let n = list.len() as int;
                &&& sorted.to_multiset() == list.to_multiset()
                &&& sorted.len() == n
                &&& #[trigger] ascending(sorted)
                &&& worth(r) - worth(sorted[(n - 1) / 2]) == worth(sorted[n / 2]) - worth(r)
                &&& forall|i: int|
                    0 <= i < n && 2 * i < n ==> worth(#[trigger] sorted[i]) <= worth(r)
                &&& forall|i: int|
                    0 <= i < n && 2 * i >= n - 1 ==> worth(#[trigger] sorted[i]) >= worth(r)
            },
{
    let sorted = choose|sorted: Seq<V>|
        #[trigger] ascending(sorted) && sorted.to_multiset() == list.to_multiset() && r == middle(
            sorted,
        );
    sorted.to_multiset_ensures();
    list.to_multiset_ensures();
    assert(sorted.len() == list.len());
    let n = list.len() as int;
    let (a, b) = (sorted[(n - 1) / 2], sorted[n / 2]);
    if n % 2 == 0 {
        assert((n - 1) / 2 == n / 2 - 1);
        crate::exact::lemma_quotient(worth(a) + worth(b), 2real);
        let q = (worth(a) + worth(b)) / 2real;
        assert(q * 2real == q + q) by (nonlinear_arith);
        assert(worth(r) == q);
    } else {
        assert((n - 1) / 2 == n / 2);
    }
    assert(!crate::number::above(a, b));
    assert forall|i: int| 0 <= i < n && 2 * i < n implies worth(#[trigger] sorted[i]) <= worth(
        r,
    ) by {
        assert(!crate::number::above(sorted[i], sorted[(n - 1) / 2]));
    }
    assert forall|i: int| 0 <= i < n && 2 * i >= n - 1 implies worth(#[trigger] sorted[i])
        >= worth(r) by {
        assert(!crate::number::above(sorted[n / 2], sorted[i]));
    }
}

/// The most frequent number is one of those present; no number has more that
/// agree with it to the hundredth.
pub proof fn law_mode_is_most_frequent<V: Number, F: Functions<V>>(
    f: &F,
    list: Seq<V>,
    r: V,
    v: V,
)
    requires
        is_mode(f, list, r),
        list.contains(v),
    ensures
        list.contains(r),
        list.filter(
            |x: V| crate::functions::hundredths_of(f, x) == crate::functions::hundredths_of(f, v),
        ).len() <= list.filter(
            |x: V| crate::functions::hundredths_of(f, x) == crate::functions::hundredths_of(f, r),
        ).len(),
{
    let j = choose|j: int| 0 <= j < list.len() && list[j] == v;
    assert(list[j] == v);
    assert(key_count(f, list, crate::functions::hundredths_of(f, list[j])) <= key_count(
        f,
        list,
        crate::functions::hundredths_of(f, r),
    ));
}

/// The mean that is filled in balances the numbers present.
pub proof fn law_mean_is_filled_in<V: Number, F: Functions<V>>(
    worth: spec_fn(V) -> real,
    f: &F,
    column: Seq<V>,
    r: V,
)
    requires
        crate::exact::exact(worth),
        crate::exact::counts(f, worth),
        fills(ImputeStrategy::Mean, f, column, r),
        column.len() <= usize::MAX,
    ensures
        present_of(column).len() > 0 ==> worth(r) * (present_of(column).len() as real) == worth(
            crate::number::total(present_of(column)),
        ),
        present_of(column).len() == 0 ==> worth(r) == 0real,
{
    law_present_numbers(column, r);
    let values = present_of(column);
    if values.len() > 0 {
        crate::exact::lemma_quotient(
            worth(crate::number::total(values)),
            values.len() as real,
        );
    }
}

/// Behind the entries of a row stand its indicators: one where the entry of the
/// marked column is missing, zero where it is not.
pub proof fn law_indicators_stand_behind<V: Number>(
    data: Seq<V>,
    num_features: nat,
    marked: Seq<int>,
    row: int,
    col: int,
)
    requires
        num_features > 0,
        0 <= row < data.len() / num_features,
        0 <= col < num_features + marked.len(),
    ensures
        ({
            let width = num_features + marked.len();
            let wide = with_indicators(data, num_features, marked);
            let entry = wide[row * width + col];
            &&& wide.len() == data.len() / num_features * width
            &&& col < num_features ==> entry == data[row * num_features + col]
            &&& col >= num_features ==> entry == (if crate::number::missing(
                data[row * num_features + marked[col - num_features]],
            ) {
                crate::number::small::<V>(1)
            } else {
                crate::number::small::<V>(0)
            })
        }),
{
    let width = num_features + marked.len();
    let rows = data.len() / num_features;
    vstd::arithmetic::div_mod::lemma_div_multiples_vanish(rows as int, width as int);
    assert(rows * width == width * rows) by (nonlinear_arith);
    assert((rows * width) as nat / width == rows);
    crate::preprocessing::table::lemma_cell_in_range(rows * width, width, row, col);
}

} // verus!
