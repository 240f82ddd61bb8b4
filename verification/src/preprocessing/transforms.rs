//! The power transformation of Yeo and Johnson, which brings skewed columns
//! closer to a normal distribution.

use crate::error::{Result, TreeBoostError};
use crate::functions::Functions;
use crate::number::{is_missing, lowest_number, magnitude, small_fraction, sum, Number};
use crate::preprocessing::table::{map_cells, read_column};
use crate::text::join5;
use vstd::prelude::*;

verus! {

/// A number transformed with the parameter `lambda`.
pub open spec fn yeo_johnson_of<V: Number, F: Functions<V>>(f: &F, x: V, lambda: V) -> V {
    let zero = crate::number::small::<V>(0);
    let one = crate::number::small::<V>(1);
    let two = crate::number::small::<V>(2);
    let tiny = crate::number::tenth_to::<V>(10);
    if crate::number::at_least(x, zero) {
        let base = crate::number::plus(x, one);
        if crate::number::above(crate::number::absolute(lambda), tiny) {
            crate::number::over(
                crate::number::minus(crate::functions::pow_of(f, base, lambda), one),
                lambda,
            )
        } else {
            crate::functions::ln_of(f, base)
        }
    } else {
        let base = crate::number::plus(crate::number::negated(x), one);
        let rest = crate::number::minus(two, lambda);
        if crate::number::above(
            crate::number::absolute(crate::number::minus(lambda, two)),
            tiny,
        ) {
            crate::number::over(
                crate::number::negated(
                    crate::number::minus(crate::functions::pow_of(f, base, rest), one),
                ),
                rest,
            )
        } else {
            crate::number::negated(crate::functions::ln_of(f, base))
        }
    }
}

/// A transformed number carried back with the parameter `lambda`.
pub open spec fn yeo_johnson_back<V: Number, F: Functions<V>>(f: &F, y: V, lambda: V) -> V {
    let zero = crate::number::small::<V>(0);
    let one = crate::number::small::<V>(1);
    let two = crate::number::small::<V>(2);
    let tiny = crate::number::tenth_to::<V>(10);
    if crate::number::at_least(y, zero) {
        if crate::number::above(crate::number::absolute(lambda), tiny) {
            crate::number::minus(
                crate::functions::pow_of(
                    f,
                    crate::number::plus(crate::number::times(lambda, y), one),
                    crate::number::over(one, lambda),
                ),
                one,
            )
        } else {
            crate::number::minus(crate::functions::exp_of(f, y), one)
        }
    } else {
        let rest = crate::number::minus(two, lambda);
        if crate::number::above(
            crate::number::absolute(crate::number::minus(lambda, two)),
            tiny,
        ) {
            crate::number::minus(
                one,
                crate::functions::pow_of(
                    f,
                    crate::number::plus(
                        crate::number::times(rest, crate::number::negated(y)),
                        one,
                    ),
                    crate::number::over(one, rest),
                ),
            )
        } else {
            crate::number::minus(
                one,
                crate::functions::exp_of(f, crate::number::negated(y)),
            )
        }
    }
}

/// Transforms a number with the parameter `lambda`.
pub fn yeo_johnson_transform<V: Number, F: Functions<V>>(x: V, lambda: V, f: &F) -> (r: V)
    requires
        crate::number::arithmetic::<V>(),
        crate::functions::computes(f),
    ensures
        r == yeo_johnson_of(f, x, lambda),
{
    let zero: V = V::from(0u8);
    let one: V = V::from(1u8);
    let two: V = V::from(2u8);
    let tiny: V = small_fraction(10);
    if x >= zero {
        let base: V = x + one;
        if magnitude(lambda) > tiny {
            (f.pow(base, lambda) - one) / lambda
        } else {
            f.ln(base)
        }
    } else {
        let base: V = x.neg() + one;
        let rest: V = two - lambda;
        if magnitude(lambda - two) > tiny {
            (f.pow(base, rest) - one).neg() / rest
        } else {
            f.ln(base).neg()
        }
    }
}

/// Carries a transformed number back with the parameter `lambda`.
pub fn yeo_johnson_inverse<V: Number, F: Functions<V>>(y: V, lambda: V, f: &F) -> (r: V)
    requires
        crate::number::arithmetic::<V>(),
        crate::functions::computes(f),
    ensures
        r == yeo_johnson_back(f, y, lambda),
{
    let zero: V = V::from(0u8);
    let one: V = V::from(1u8);
    let two: V = V::from(2u8);
    let tiny: V = small_fraction(10);
    if y >= zero {
        if magnitude(lambda) > tiny {
            f.pow(lambda * y + one, one / lambda) - one
        } else {
            f.exp(y) - one
        }
    } else {
        let rest: V = two - lambda;
        if magnitude(lambda - two) > tiny {
            one - f.pow(rest * y.neg() + one, one / rest)
        } else {
            one - f.exp(y.neg())
        }
    }
}

/// The numbers of a list, transformed.
pub open spec fn transformed_list<V: Number, F: Functions<V>>(
    f: &F,
    values: Seq<V>,
    lambda: V,
) -> Seq<V> {
    Seq::new(values.len(), |i: int| yeo_johnson_of(f, values[i], lambda))
}

/// What each number of a list adds to the likelihood by how the transformation
/// stretches there.
pub open spec fn stretch_terms<V: Number, F: Functions<V>>(
    f: &F,
    values: Seq<V>,
    lambda: V,
) -> Seq<V> {
    let one = crate::number::small::<V>(1);
    Seq::new(
        values.len(),
        |i: int|
            crate::number::times(
                crate::number::times(
                    crate::number::minus(lambda, one),
                    if crate::number::at_least(values[i], crate::number::small::<V>(0)) {
                        one
                    } else {
                        crate::number::negated(one)
                    },
                ),
                crate::functions::ln_of(
                    f,
                    crate::number::plus(crate::number::absolute(values[i]), one),
                ),
            ),
    )
}

/// The logarithm of the likelihood of `lambda`, but for a constant; less than
/// anything, where the transformed numbers do not vary.
pub open spec fn likelihood<V: Number, F: Functions<V>>(f: &F, values: Seq<V>, lambda: V) -> V {
    let zero = crate::number::small::<V>(0);
    let n = crate::functions::count_of::<V, F>(f, values.len() as usize);
    let list = transformed_list(f, values, lambda);
    let mean = crate::number::over(crate::number::total(list), n);
    let variance = crate::number::over(
        crate::number::total(crate::preprocessing::scaler::square_deviations(list, mean)),
        n,
    );
    if crate::number::same(n, zero) || crate::number::at_most(variance, zero)
        || crate::number::missing(variance) {
        crate::number::lowest()
    } else {
        let half = crate::number::over(crate::number::small::<V>(1), crate::number::small::<V>(2));
        crate::number::plus(
            crate::number::times(
                crate::number::times(crate::number::negated(half), n),
                crate::functions::ln_of(f, variance),
            ),
            crate::number::total(stretch_terms(f, values, lambda)),
        )
    }
}

/// Where a search by golden sections stands: the ends of the interval, the two
/// points within, and the cost at these.
pub struct Section<V> {
    /// The lower end.
    pub a: V,
    /// The upper end.
    pub b: V,
    /// The lower point.
    pub x1: V,
    /// The upper point.
    pub x2: V,
    /// The cost at the lower point.
    pub f1: V,
    /// The cost at the upper point.
    pub f2: V,
}

/// The cost of `lambda`: the likelihood with the opposite sign.
pub open spec fn cost<V: Number, F: Functions<V>>(f: &F, values: Seq<V>, lambda: V) -> V {
    crate::number::negated(likelihood(f, values, lambda))
}

/// The share of an interval that a golden section cuts off.
pub open spec fn golden_share<V: Number, F: Functions<V>>(f: &F) -> V {
    crate::number::minus(
        crate::number::small(2),
        crate::number::over(
            crate::number::plus(
                crate::number::small(1),
                crate::functions::root_of(f, crate::number::small::<V>(5)),
            ),
            crate::number::small(2),
        ),
    )
}

/// The lower point of an interval.
pub open spec fn lower_point<V: Number>(share: V, a: V, b: V) -> V {
    crate::number::plus(a, crate::number::times(share, crate::number::minus(b, a)))
}

/// The upper point of an interval.
pub open spec fn upper_point<V: Number>(share: V, a: V, b: V) -> V {
    crate::number::minus(b, crate::number::times(share, crate::number::minus(b, a)))
}

/// The interval is cut off on the side where the cost is higher.
pub open spec fn golden_step<V: Number, F: Functions<V>>(
    f: &F,
    values: Seq<V>,
    s: Section<V>,
) -> Section<V> {
    let share = golden_share::<V, F>(f);
    if crate::number::below(s.f1, s.f2) {
        let x = lower_point(share, s.a, s.x2);
        Section { a: s.a, b: s.x2, x1: x, x2: s.x1, f1: cost(f, values, x), f2: s.f1 }
    } else {
        let x = upper_point(share, s.x1, s.b);
        Section { a: s.x1, b: s.b, x1: s.x2, x2: x, f1: s.f2, f2: cost(f, values, x) }
    }
}

/// Where a search stands at the beginning.
pub open spec fn golden_start<V: Number, F: Functions<V>>(f: &F, values: Seq<V>) -> Section<V> {
    let share = golden_share::<V, F>(f);
    let a = crate::number::negated(crate::number::small::<V>(5));
    let b = crate::number::small::<V>(5);
    let x1 = lower_point(share, a, b);
    let x2 = upper_point(share, a, b);
    Section { a, b, x1, x2, f1: cost(f, values, x1), f2: cost(f, values, x2) }
}

/// Where a search ends: after `n` steps, or when the interval is small enough.
pub open spec fn golden_search<V: Number, F: Functions<V>>(
    f: &F,
    values: Seq<V>,
    tolerance: V,
    s: Section<V>,
    n: nat,
) -> Section<V>
    decreases n,
{
    if n == 0 || crate::number::below(
        crate::number::absolute(crate::number::minus(s.b, s.a)),
        tolerance,
    ) {
        s
    } else {
        golden_search(f, values, tolerance, golden_step(f, values, s), (n - 1) as nat)
    }
}

/// The parameter that a search finds for a list of numbers.
pub open spec fn best_lambda<V: Number, F: Functions<V>>(
    f: &F,
    values: Seq<V>,
    tolerance: V,
    max_iter: nat,
) -> V {
    let s = golden_search(f, values, tolerance, golden_start(f, values), max_iter);
    crate::number::over(crate::number::plus(s.a, s.b), crate::number::small(2))
}

/// The parameter of a column: what a search finds for the numbers that are not
/// missing; one, where all are.
pub open spec fn column_lambda<V: Number, F: Functions<V>>(
    f: &F,
    column: Seq<V>,
    tolerance: V,
    max_iter: nat,
) -> V {
    let values = crate::preprocessing::imputer::present_of(column);
    if values.len() == 0 {
        crate::number::small(1)
    } else {
        best_lambda(f, values, tolerance, max_iter)
    }
}

/// Transforms each column with a parameter of its own.
#[derive(Debug, Clone)]
pub struct YeoJohnsonTransform<V> {
    /// The parameter of each column.
    pub lambdas: Vec<V>,
    /// Whether parameters have been learnt.
    pub fitted: bool,
    /// The greatest number of steps of a search.
    pub max_iter: usize,
    /// How small an interval ends a search.
    pub tolerance: V,
}

/// What is wrong with a table to be fitted, if anything.
pub open spec fn power_fit_error(len: nat, num_features: nat) -> Option<Seq<char>> {
    if len == 0 {
        Some("Cannot fit on empty data"@)
    } else if len % num_features != 0 {
        Some(
            "Data length "@ + crate::text::decimal(len) + " is not divisible by num_features "@
                + crate::text::decimal(num_features) + ""@,
        )
    } else {
        None
    }
}

/// The entries of columns transformed; missing ones stay missing.
pub open spec fn powering<V: Number, F: Functions<V>>(
    f: &F,
    lambdas: Seq<V>,
    back: bool,
) -> spec_fn(V, int) -> V {
    |v: V, col: int|
        if crate::number::missing(v) {
            v
        } else if back {
            yeo_johnson_back(f, v, lambdas[col])
        } else {
            yeo_johnson_of(f, v, lambdas[col])
        }
}

impl<V: Number> YeoJohnsonTransform<V> {
    /// What is wrong with a table to be transformed, if anything.
    pub open spec fn transform_error(&self, num_features: nat) -> Option<Seq<char>> {
        if !self.fitted {
            Some("YeoJohnsonTransform not fitted. Call fit() first."@)
        } else if self.lambdas@.len() != num_features {
            Some(
                "Feature count mismatch: fitted with "@ + crate::text::decimal(
                    self.lambdas@.len(),
                ) + " features, got "@ + crate::text::decimal(num_features) + ""@,
            )
        } else {
            None
        }
    }

    /// A parameter has been learnt for each column of a table.
    pub open spec fn learnt<F: Functions<V>>(
        &self,
        f: &F,
        data: Seq<V>,
        num_features: nat,
    ) -> bool {
        &&& self.fitted
        &&& self.lambdas@ == Seq::new(
            num_features,
            |c: int|
                column_lambda(
                    f,
                    crate::preprocessing::table::column_of(data, num_features, c),
                    self.tolerance,
                    self.max_iter as nat,
                ),
        )
    }

    /// What comes of learning from a table: the transformation becomes `after`,
    /// or the layout of the table is wrong.
    pub open spec fn fits<F: Functions<V>>(
        &self,
        after: &Self,
        f: &F,
        data: Seq<V>,
        num_features: nat,
        r: Result<()>,
    ) -> bool {
        let text = power_fit_error(data.len(), num_features);
        match r {
            Ok(_) => text is None && after.max_iter == self.max_iter && after.tolerance
                == self.tolerance && after.learnt(f, data, num_features),
            Err(e) => text is Some && e.is_data(text->Some_0) && *after == *self,
        }
    }

    /// What comes of transforming a table, or of carrying it back: it becomes
    /// `after`, or nothing has been learnt or the table does not fit.
    pub open spec fn powers<F: Functions<V>>(
        &self,
        f: &F,
        num_features: nat,
        before: Seq<V>,
        after: Seq<V>,
        back: bool,
        r: Result<()>,
    ) -> bool {
        let text = self.transform_error(num_features);
        match r {
            Ok(_) => text is None && crate::preprocessing::table::maps_cells(
                before,
                after,
                num_features,
                powering(f, self.lambdas@, back),
            ),
            Err(e) => text is Some && e.is_config(text->Some_0) && after == before,
        }
    }

    /// A transformation that has learnt nothing.
    pub fn new() -> (r: Self)
        requires
            crate::number::arithmetic::<V>(),
        ensures
            r.lambdas@.len() == 0,
            !r.fitted,
            r.max_iter == 100,
            r.tolerance == crate::number::tenth_to::<V>(6),
    {
        YeoJohnsonTransform {
            lambdas: Vec::new(),
            fitted: false,
            max_iter: 100,
            tolerance: small_fraction(6),
        }
    }

    /// Sets the greatest number of steps of a search.
    pub fn with_max_iter(self, max_iter: usize) -> (r: Self)
        ensures
            r == (YeoJohnsonTransform { max_iter, ..self }),
    {
        YeoJohnsonTransform { max_iter, ..self }
    }

    /// Sets how small an interval ends a search.
    pub fn with_tolerance(self, tolerance: V) -> (r: Self)
        ensures
            r == (YeoJohnsonTransform { tolerance, ..self }),
    {
        YeoJohnsonTransform { tolerance, ..self }
    }

    /// A transformation with the given parameters.
    pub fn with_lambdas(lambdas: Vec<V>) -> (r: Self)
        requires
            crate::number::arithmetic::<V>(),
        ensures
            r.lambdas@ == lambdas@,
            r.fitted,
            r.max_iter == 100,
            r.tolerance == crate::number::tenth_to::<V>(6),
    {
        YeoJohnsonTransform { lambdas, fitted: true, max_iter: 100, tolerance: small_fraction(6) }
    }

    /// The likelihood of `lambda`.
    fn log_likelihood<F: Functions<V>>(&self, values: &[V], lambda: V, f: &F) -> (r: V)
        requires
            crate::number::arithmetic::<V>(),
            crate::functions::computes(f),
        ensures
            r == likelihood(f, values@, lambda),
    {
        let zero: V = V::from(0u8);
        let one: V = V::from(1u8);
        let two: V = V::from(2u8);
        let n: V = f.count(values.len());
        if n == zero {
            return lowest_number();
        }
        let mut list: Vec<V> = Vec::new();
        let mut i: usize = 0;
        while i < values.len()
            invariant
                crate::number::arithmetic::<V>(),
                crate::functions::computes(f),
                i <= values.len(),
                list@ == transformed_list(f, values@, lambda).take(i as int),
            decreases values.len() - i,
        {
            list.push(yeo_johnson_transform(values[i], lambda, f));
            i = i + 1;
            assert(list@ =~= transformed_list(f, values@, lambda).take(i as int));
        }
        assert(list@ =~= transformed_list(f, values@, lambda));
        let mean: V = sum(list.as_slice()) / n;
        let mut squares: Vec<V> = Vec::new();
        let mut j: usize = 0;
        while j < list.len()
            invariant
                crate::number::arithmetic::<V>(),
                j <= list.len(),
                squares@ == crate::preprocessing::scaler::square_deviations(list@, mean).take(
                    j as int,
                ),
            decreases list.len() - j,
        {
            let x: V = list[j];
            squares.push((x - mean) * (x - mean));
            j = j + 1;
            assert(squares@ =~= crate::preprocessing::scaler::square_deviations(
                list@,
                mean,
            ).take(j as int));
        }
        assert(squares@ =~= crate::preprocessing::scaler::square_deviations(list@, mean));
        let variance: V = sum(squares.as_slice()) / n;
        if variance <= zero || is_missing(variance) {
            return lowest_number();
        }
        let mut terms: Vec<V> = Vec::new();
        let mut k: usize = 0;
        while k < values.len()
            invariant
                crate::number::arithmetic::<V>(),
                crate::functions::computes(f),
                zero == crate::number::small::<V>(0),
                one == crate::number::small::<V>(1),
                k <= values.len(),
                terms@ == stretch_terms(f, values@, lambda).take(k as int),
            decreases values.len() - k,
        {
            let x: V = values[k];
            let sign: V = if x >= zero {
                one
            } else {
                one.neg()
            };
            terms.push((lambda - one) * sign * f.ln(magnitude(x) + one));
            k = k + 1;
            assert(terms@ =~= stretch_terms(f, values@, lambda).take(k as int));
        }
        assert(terms@ =~= stretch_terms(f, values@, lambda));
        let half: V = one / two;
        half.neg() * n * f.ln(variance) + sum(terms.as_slice())
    }

    /// The parameter that a search finds for a list of numbers.
    fn find_optimal_lambda<F: Functions<V>>(&self, values: &[V], f: &F) -> (r: V)
        requires
            crate::number::arithmetic::<V>(),
            crate::functions::computes(f),
        ensures
            r == best_lambda(f, values@, self.tolerance, self.max_iter as nat),
    {
        let one: V = V::from(1u8);
        let two: V = V::from(2u8);
        let five: V = V::from(5u8);
        let share: V = two - (one + f.root(five)) / two;
        let mut a: V = five.neg();
        let mut b: V = five;
        let mut x1: V = a + share * (b - a);
        let mut x2: V = b - share * (b - a);
        let mut f1: V = self.log_likelihood(values, x1, f).neg();
        let mut f2: V = self.log_likelihood(values, x2, f).neg();
        let mut left: usize = self.max_iter;
        let ghost goal = golden_search(
            f,
            values@,
            self.tolerance,
            golden_start(f, values@),
            self.max_iter as nat,
        );
        while left > 0
            invariant_except_break
                golden_search(
                    f,
                    values@,
                    self.tolerance,
                    (Section { a, b, x1, x2, f1, f2 }),
                    left as nat,
                ) == goal,
            invariant
                crate::number::arithmetic::<V>(),
                crate::functions::computes(f),
                share == golden_share::<V, F>(f),
            ensures
                (Section { a, b, x1, x2, f1, f2 }) == goal,
            decreases left,
        {
            if magnitude(b - a) < self.tolerance {
                break ;
            }
            if f1 < f2 {
                b = x2;
                x2 = x1;
                f2 = f1;
                x1 = a + share * (b - a);
                f1 = self.log_likelihood(values, x1, f).neg();
            } else {
                a = x1;
                x1 = x2;
                f1 = f2;
                x2 = b - share * (b - a);
                f2 = self.log_likelihood(values, x2, f).neg();
            }
            left = left - 1;
        }
        (a + b) / two
    }

    /// Learns a parameter for each column of a table.
    pub fn fit<F: Functions<V>>(&mut self, data: &[V], num_features: usize, f: &F) -> (r: Result<
        (),
    >)
        requires
            crate::number::arithmetic::<V>(),
            crate::functions::computes(f),
            num_features > 0 || data.len() == 0,
        ensures
            old(self).fits(final(self), f, data@, num_features as nat, r),
    {
        if data.len() == 0 {
            return Err(TreeBoostError::Data("Cannot fit on empty data".to_owned()));
        }
        if data.len() % num_features != 0 {
            return Err(
                TreeBoostError::Data(
                    join5(
                        "Data length ",
                        crate::text::decimal_string(data.len() as u64).as_str(),
                        " is not divisible by num_features ",
                        crate::text::decimal_string(num_features as u64).as_str(),
                        "",
                    ),
                ),
            );
        }
        let mut lambdas: Vec<V> = Vec::new();
        let mut col: usize = 0;
        while col < num_features
            invariant
                crate::number::arithmetic::<V>(),
                crate::functions::computes(f),
                col <= num_features,
                lambdas.len() == col,
                forall|c: int|
                    0 <= c < col ==> #[trigger] lambdas[c] == column_lambda(
                        f,
                        crate::preprocessing::table::column_of(data@, num_features as nat, c),
                        self.tolerance,
                        self.max_iter as nat,
                    ),
            decreases num_features - col,
        {
            let column = read_column(data, num_features, col);
            let values = crate::preprocessing::imputer::keep_present(column.as_slice());
            if values.len() == 0 {
                lambdas.push(V::from(1u8));
            } else {
                lambdas.push(self.find_optimal_lambda(values.as_slice(), f));
            }
            col = col + 1;
        }
        self.lambdas = lambdas;
        self.fitted = true;
        assert(self.lambdas@ =~= Seq::new(
            num_features as nat,
            |c: int|
                column_lambda(
                    f,
                    crate::preprocessing::table::column_of(data@, num_features as nat, c),
                    self.tolerance,
                    self.max_iter as nat,
                ),
        ));
        Ok(())
    }

    /// Checks a table to be transformed.
    fn check_table(&self, num_features: usize) -> (r: Result<()>)
        ensures
            match r {
                Ok(_) => self.transform_error(num_features as nat) is None,
                Err(e) => {
                    let text = self.transform_error(num_features as nat);
                    text is Some && e.is_config(text->Some_0)
                },
            },
    {
        if !self.fitted {
            return Err(
                TreeBoostError::Config(
                    "YeoJohnsonTransform not fitted. Call fit() first.".to_owned(),
                ),
            );
        }
        if self.lambdas.len() != num_features {
            return Err(
                TreeBoostError::Config(
                    join5(
                        "Feature count mismatch: fitted with ",
                        crate::text::decimal_string(self.lambdas.len() as u64).as_str(),
                        " features, got ",
                        crate::text::decimal_string(num_features as u64).as_str(),
                        "",
                    ),
                ),
            );
        }
        Ok(())
    }

    /// Transforms the columns of a table in place.
    pub fn transform<F: Functions<V>>(&self, data: &mut [V], num_features: usize, f: &F) -> (r:
        Result<()>)
        requires
            crate::number::arithmetic::<V>(),
            crate::functions::computes(f),
            num_features > 0 || self.transform_error(num_features as nat) is Some,
        ensures
            self.powers(f, num_features as nat, old(data)@, final(data)@, false, r),
    {
        match self.check_table(num_features) {
            Ok(_) => {},
            Err(e) => {
                return Err(e);
            },
        }
        let lambdas = self.lambdas.as_slice();
        let change = |v: V, col: usize| -> (r: V)
            requires
                col < num_features,
                crate::number::arithmetic::<V>(),
                crate::functions::computes(f),
                lambdas.len() == num_features,
            ensures
                r == (if crate::number::missing(v) {
                    v
                } else {
                    yeo_johnson_of(f, v, lambdas[col as int])
                }),
            {
                if is_missing(v) {
                    v
                } else {
                    yeo_johnson_transform(v, lambdas[col], f)
                }
            };
        map_cells(data, num_features, &change, Ghost(powering(f, lambdas@, false)));
        Ok(())
    }

    /// Carries the transformed columns of a table back in place.
    pub fn inverse_transform<F: Functions<V>>(
        &self,
        data: &mut [V],
        num_features: usize,
        f: &F,
    ) -> (r: Result<()>)
        requires
            crate::number::arithmetic::<V>(),
            crate::functions::computes(f),
            num_features > 0 || self.transform_error(num_features as nat) is Some,
        ensures
            self.powers(f, num_features as nat, old(data)@, final(data)@, true, r),
    {
        match self.check_table(num_features) {
            Ok(_) => {},
            Err(e) => {
                return Err(e);
            },
        }
        let lambdas = self.lambdas.as_slice();
        let change = |v: V, col: usize| -> (r: V)
            requires
                col < num_features,
                crate::number::arithmetic::<V>(),
                crate::functions::computes(f),
                lambdas.len() == num_features,
            ensures
                r == (if crate::number::missing(v) {
                    v
                } else {
                    yeo_johnson_back(f, v, lambdas[col as int])
                }),
            {
                if is_missing(v) {
                    v
                } else {
                    yeo_johnson_inverse(v, lambdas[col], f)
                }
            };
        map_cells(data, num_features, &change, Ghost(powering(f, lambdas@, true)));
        Ok(())
    }

    /// Learns a parameter for each column of a table, and transforms it.
    pub fn fit_transform<F: Functions<V>>(
        &mut self,
        data: &mut [V],
        num_features: usize,
        f: &F,
    ) -> (r: Result<()>)
        requires
            crate::number::arithmetic::<V>(),
            crate::functions::computes(f),
            num_features > 0 || old(data).len() == 0,
        ensures
            match r {
                Ok(_) => {
                    &&& power_fit_error(old(data)@.len(), num_features as nat) is None
                    &&& final(self).max_iter == old(self).max_iter
                    &&& final(self).tolerance == old(self).tolerance
                    &&& final(self).learnt(f, old(data)@, num_features as nat)
                    &&& crate::preprocessing::table::maps_cells(
                        old(data)@,
                        final(data)@,
                        num_features as nat,
                        powering(f, final(self).lambdas@, false),
                    )
                },
                Err(e) => {
                    let text = power_fit_error(old(data)@.len(), num_features as nat);
                    &&& text is Some && e.is_data(text->Some_0)
                    &&& *final(self) == *old(self)
                    &&& final(data)@ == old(data)@
                },
            },
    {
        match self.fit(data, num_features, f) {
            Ok(_) => self.transform(data, num_features, f),
            Err(e) => Err(e),
        }
    }

    /// Whether parameters have been learnt.
    pub fn is_fitted(&self) -> (r: bool)
        ensures
            r == self.fitted,
    {
        self.fitted
    }

    /// The parameter of each column.
    pub fn lambdas(&self) -> (r: &[V])
        ensures
            r@ == self.lambdas@,
    {
        self.lambdas.as_slice()
    }
}

/// A negative number is transformed as its opposite is with the parameter on the
/// other side of one, and gets the opposite sign.
pub proof fn law_negative_numbers_are_reflected<V: Number, F: Functions<V>>(
    worth: spec_fn(V) -> real,
    f: &F,
    x: V,
    lambda: V,
)
    requires
        crate::exact::exact(worth),
        worth(x) < 0real,
    ensures
        worth(yeo_johnson_of(f, x, lambda)) == 0real - worth(
            yeo_johnson_of(
                f,
                crate::number::negated(x),
                crate::number::minus(crate::number::small(2), lambda),
            ),
        ),
{
    crate::exact::lemma_tenth_positive::<V>(worth, 10);
    let two = crate::number::small::<V>(2);
    let one = crate::number::small::<V>(1);
    let rest = crate::number::minus(two, lambda);
    let base = crate::number::plus(crate::number::negated(x), one);
    let p = worth(crate::number::minus(crate::functions::pow_of(f, base, rest), one));
    let r = worth(rest);
    assert(worth(crate::number::absolute(crate::number::minus(lambda, two))) == worth(
        crate::number::absolute(rest),
    ));
    assert(r != 0real ==> (0real - p) / r == 0real - p / r) by (nonlinear_arith);
}

/// With the parameter one numbers stay as they are.
pub proof fn law_parameter_one_changes_nothing<V: Number, F: Functions<V>>(
    worth: spec_fn(V) -> real,
    f: &F,
    x: V,
    lambda: V,
)
    requires
        crate::exact::exact(worth),
        crate::exact::distinct::<V>(),
        crate::exact::powers(f, worth),
        worth(lambda) == 1real,
    ensures
        worth(yeo_johnson_of(f, x, lambda)) == worth(x),
    decreases
            if worth(x) < 0real {
                1int
            } else {
                0int
            },
{
    if worth(x) < 0real {
        law_negative_numbers_are_reflected(worth, f, x, lambda);
        law_parameter_one_changes_nothing(
            worth,
            f,
            crate::number::negated(x),
            crate::number::minus(crate::number::small(2), lambda),
        );
    } else {
        crate::exact::lemma_tenth_positive::<V>(worth, 10);
        let one = crate::number::small::<V>(1);
        let base = crate::number::plus(x, one);
        let p = crate::functions::pow_of(f, base, lambda);
        let l = worth(crate::functions::ln_of(f, base));
        assert(worth(lambda) * l == l) by (nonlinear_arith)
            requires
                worth(lambda) == 1real,
        ;
        crate::exact::lemma_ln_injective(f, worth, p, base);
        let d = worth(crate::number::minus(p, one));
        assert(d / 1real == d) by (nonlinear_arith);
    }
}

/// With the parameter zero numbers that are not negative are transformed to
/// logarithms, and with two the negative ones are, mirrored.
pub proof fn law_logarithms_at_zero_and_two<V: Number, F: Functions<V>>(
    worth: spec_fn(V) -> real,
    f: &F,
    x: V,
    lambda: V,
)
    requires
        crate::exact::exact(worth),
        crate::exact::distinct::<V>(),
    ensures
        worth(lambda) == 0real && worth(x) >= 0real ==> worth(yeo_johnson_of(f, x, lambda))
            == worth(
            crate::functions::ln_of(f, crate::number::plus(x, crate::number::small(1))),
        ),
        worth(lambda) == 2real && worth(x) < 0real ==> worth(yeo_johnson_of(f, x, lambda))
            == 0real - worth(
            crate::functions::ln_of(
                f,
                crate::number::minus(crate::number::small(1), x),
            ),
        ),
{
    crate::exact::lemma_tenth_positive::<V>(worth, 10);
    let one = crate::number::small::<V>(1);
    assert(crate::number::same(
        crate::number::plus(crate::number::negated(x), one),
        crate::number::minus(one, x),
    ));
}

/// A number that is not negative is carried back to where it came from.
proof fn lemma_round_trip_upward<V: Number, F: Functions<V>>(
    worth: spec_fn(V) -> real,
    f: &F,
    x: V,
    lambda: V,
)
    requires
        crate::exact::exact(worth),
        crate::exact::distinct::<V>(),
        crate::exact::powers(f, worth),
        worth(x) >= 0real,
    ensures
        worth(yeo_johnson_of(f, x, lambda)) >= 0real,
        worth(x) > 0real ==> worth(yeo_johnson_of(f, x, lambda)) > 0real,
        worth(yeo_johnson_back(f, yeo_johnson_of(f, x, lambda), lambda)) == worth(x),
{
    crate::exact::lemma_tenth_positive::<V>(worth, 10);
    let one = crate::number::small::<V>(1);
    let base = crate::number::plus(x, one);
    let l = worth(crate::functions::ln_of(f, base));
    crate::exact::lemma_ln_sign(f, worth, base);
    let y = yeo_johnson_of(f, x, lambda);
    let tiny = crate::number::tenth_to::<V>(10);
    if crate::number::above(crate::number::absolute(lambda), tiny) {
        let p = crate::functions::pow_of(f, base, lambda);
        let m = worth(lambda);
        crate::exact::lemma_ln_sign(f, worth, p);
        let d = worth(p) - 1real;
        assert(m != 0real);
        assert(worth(y) == d / m);
        assert(l > 0real && m > 0real ==> m * l > 0real) by (nonlinear_arith);
        assert(l > 0real && m < 0real ==> m * l < 0real) by (nonlinear_arith);
        assert(l == 0real ==> m * l == 0real) by (nonlinear_arith);
        assert((d > 0real && m > 0real) || (d < 0real && m < 0real) ==> d / m > 0real)
            by (nonlinear_arith);
        assert(d == 0real && m != 0real ==> d / m == 0real) by (nonlinear_arith);
        assert(m * (d / m) == d) by (nonlinear_arith)
            requires
                m != 0real,
        ;
        let inner = crate::number::plus(crate::number::times(lambda, y), one);
        assert(crate::number::same(inner, p));
        let inverse = crate::number::over(one, lambda);
        let back = crate::functions::pow_of(f, p, inverse);
        assert(1real / m * (m * l) == l) by (nonlinear_arith)
            requires
                m != 0real,
        ;
        crate::exact::lemma_ln_injective(f, worth, back, base);
    }
}

/// Whatever the parameter, a transformed number is carried back to where it came
/// from, and keeps its sign.
pub proof fn law_round_trip<V: Number, F: Functions<V>>(
    worth: spec_fn(V) -> real,
    f: &F,
    x: V,
    lambda: V,
)
    requires
        crate::exact::exact(worth),
        crate::exact::distinct::<V>(),
        crate::exact::powers(f, worth),
    ensures
        worth(yeo_johnson_back(f, yeo_johnson_of(f, x, lambda), lambda)) == worth(x),
        worth(x) > 0real <==> worth(yeo_johnson_of(f, x, lambda)) > 0real,
        worth(x) < 0real <==> worth(yeo_johnson_of(f, x, lambda)) < 0real,
{
    if worth(x) >= 0real {
        lemma_round_trip_upward(worth, f, x, lambda);
        if worth(x) == 0real && worth(yeo_johnson_of(f, x, lambda)) > 0real {
            crate::exact::lemma_tenth_positive::<V>(worth, 10);
            crate::exact::lemma_ln_one(f, worth);
            let one = crate::number::small::<V>(1);
            let base = crate::number::plus(x, one);
            assert(crate::number::same(base, one));
            let p = crate::functions::pow_of(f, base, lambda);
            let m = worth(lambda);
            assert(m * 0real == 0real) by (nonlinear_arith);
            crate::exact::lemma_ln_sign(f, worth, p);
            assert(m != 0real ==> 0real / m == 0real) by (nonlinear_arith);
        }
    } else {
        let one = crate::number::small::<V>(1);
        let two = crate::number::small::<V>(2);
        let other = crate::number::negated(x);
        let rest = crate::number::minus(two, lambda);
        law_negative_numbers_are_reflected(worth, f, x, lambda);
        lemma_round_trip_upward(worth, f, other, rest);
        let y = yeo_johnson_of(f, x, lambda);
        let z = yeo_johnson_of(f, other, rest);
        assert(crate::number::same(crate::number::negated(y), z));
        assert(worth(crate::number::absolute(crate::number::minus(lambda, two))) == worth(
            crate::number::absolute(rest),
        ));
        assert(crate::number::below(y, crate::number::small(0)));
    }
}

/// The numbers of a list with the opposite signs.
pub open spec fn mirrored_list<V: Number>(values: Seq<V>) -> Seq<V> {
    Seq::new(values.len(), |i: int| crate::number::negated(values[i]))
}

proof fn lemma_mirrored_value<V: Number, F: Functions<V>>(
    worth: spec_fn(V) -> real,
    f: &F,
    x: V,
    lambda: V,
)
    requires
        crate::exact::exact(worth),
        crate::exact::distinct::<V>(),
        crate::exact::powers(f, worth),
    ensures
        worth(
            yeo_johnson_of(
                f,
                crate::number::negated(x),
                crate::number::minus(crate::number::small(2), lambda),
            ),
        ) == 0real - worth(yeo_johnson_of(f, x, lambda)),
{
    let two = crate::number::small::<V>(2);
    let other = crate::number::negated(x);
    let rest = crate::number::minus(two, lambda);
    if worth(x) < 0real {
        law_negative_numbers_are_reflected(worth, f, x, lambda);
    } else if worth(x) > 0real {
        law_negative_numbers_are_reflected(worth, f, other, rest);
        assert(crate::number::same(crate::number::negated(other), x));
        assert(crate::number::same(crate::number::minus(two, rest), lambda));
    } else {
        law_round_trip(worth, f, x, lambda);
        law_round_trip(worth, f, other, rest);
    }
}

/// A list is as likely with a parameter as the mirrored list is with the parameter
/// on the other side of one.
pub proof fn law_likelihood_is_mirrored<V: Number, F: Functions<V>>(
    worth: spec_fn(V) -> real,
    f: &F,
    values: Seq<V>,
    lambda: V,
)
    requires
        crate::exact::exact(worth),
        crate::exact::distinct::<V>(),
        crate::exact::powers(f, worth),
        crate::exact::counts(f, worth),
        0 < values.len() <= usize::MAX,
    ensures
        worth(
            likelihood(
                f,
                mirrored_list(values),
                crate::number::minus(crate::number::small(2), lambda),
            ),
        ) == worth(likelihood(f, values, lambda)),
{
    let one = crate::number::small::<V>(1);
    let two = crate::number::small::<V>(2);
    let others = mirrored_list(values);
    let rest = crate::number::minus(two, lambda);
    let n = crate::functions::count_of::<V, F>(f, values.len() as usize);
    let a = transformed_list(f, values, lambda);
    let b = transformed_list(f, others, rest);
    assert forall|i: int| 0 <= i < a.len() implies worth(#[trigger] b[i]) == (0real - 1real)
        * worth(a[i]) by {
        lemma_mirrored_value(worth, f, values[i], lambda);
        assert((0real - 1real) * worth(a[i]) == 0real - worth(a[i])) by (nonlinear_arith);
    }
    crate::exact::lemma_total_scaled(worth, a, b, 0real - 1real);
    let ta = worth(crate::number::total(a));
    let w = worth(n);
    assert((0real - 1real) * ta / w == 0real - ta / w) by (nonlinear_arith)
        requires
            w > 0real,
    ;
    let ma = crate::number::over(crate::number::total(a), n);
    let mb = crate::number::over(crate::number::total(b), n);
    let da = crate::preprocessing::scaler::square_deviations(a, ma);
    let db = crate::preprocessing::scaler::square_deviations(b, mb);
    assert forall|i: int| 0 <= i < da.len() implies worth(#[trigger] db[i]) == 1real * worth(
        da[i],
    ) by {
        let (u, v) = (worth(a[i]) - worth(ma), worth(b[i]) - worth(mb));
        assert(worth(b[i]) == (0real - 1real) * worth(a[i]));
        assert((0real - 1real) * worth(a[i]) == 0real - worth(a[i])) by (nonlinear_arith);
        assert(v * v == 1real * (u * u)) by (nonlinear_arith)
            requires
                v == 0real - u,
        ;
    }
    crate::exact::lemma_total_scaled(worth, da, db, 1real);
    let td = worth(crate::number::total(da));
    assert(1real * td == td) by (nonlinear_arith);
    let va = crate::number::over(crate::number::total(da), n);
    let vb = crate::number::over(crate::number::total(db), n);
    assert(crate::number::same(va, vb));
    let sa = stretch_terms(f, values, lambda);
    let sb = stretch_terms(f, others, rest);
    assert forall|i: int| 0 <= i < sa.len() implies worth(#[trigger] sb[i]) == 1real * worth(
        sa[i],
    ) by {
        let x = values[i];
        let y = others[i];
        assert(crate::number::same(crate::number::absolute(x), crate::number::absolute(y)));
        let l = worth(
            crate::functions::ln_of(f, crate::number::plus(crate::number::absolute(x), one)),
        );
        let m = worth(lambda);
        if worth(x) == 0real {
            crate::exact::lemma_ln_one(f, worth);
            assert(crate::number::same(
                crate::number::plus(crate::number::absolute(x), one),
                one,
            ));
            assert(l == 0real);
            assert((m - 1real) * 1real * l == 0real && (2real - m - 1real) * 1real * l == 0real)
                by (nonlinear_arith)
                requires
                    l == 0real,
            ;
        } else {
            let minus_one = 0real - 1real;
            assert((2real - m - 1real) * minus_one * l == 1real * ((m - 1real) * 1real * l)
                && (2real - m - 1real) * 1real * l == 1real * ((m - 1real) * minus_one * l))
                by (nonlinear_arith)
                requires
                    minus_one == 0real - 1real,
            ;
        }
        let z = worth(sa[i]);
        assert(1real * z == z) by (nonlinear_arith);
    }
    crate::exact::lemma_total_scaled(worth, sa, sb, 1real);
    let ts = worth(crate::number::total(sa));
    assert(1real * ts == ts) by (nonlinear_arith);
}

/// The golden section: what is left of an interval, once a share is cut off, is
/// to the whole as what was cut off is to what is left.
pub proof fn law_golden_share<V: Number, F: Functions<V>>(worth: spec_fn(V) -> real, f: &F)
    requires
        crate::exact::exact(worth),
        crate::exact::roots(f, worth),
    ensures
        ({
            let share = worth(golden_share::<V, F>(f));
            &&& 1real / 3real < share
            &&& share < 2real / 5real
            &&& (1real - share) * (1real - share) == share
        }),
{
    let r = worth(crate::functions::root_of(f, crate::number::small::<V>(5)));
    let share = worth(golden_share::<V, F>(f));
    assert(share == 2real - (1real + r) / 2real);
    assert(22real / 10real < r && r < 23real / 10real) by (nonlinear_arith)
        requires
            r >= 0real,
            r * r == 5real,
    ;
    assert((1real - share) * (1real - share) == share) by (nonlinear_arith)
        requires
            share == 2real - (1real + r) / 2real,
            r * r == 5real,
    ;
}

/// The points of a section lie within the interval, each a golden share from an
/// end, and the costs are those at the points.
pub open spec fn well_cut<V: Number, F: Functions<V>>(
    worth: spec_fn(V) -> real,
    f: &F,
    values: Seq<V>,
    s: Section<V>,
) -> bool {
    let share = worth(golden_share::<V, F>(f));
    let width = worth(s.b) - worth(s.a);
    &&& width > 0real
    &&& worth(s.x1) == worth(s.a) + share * width
    &&& worth(s.x2) == worth(s.b) - share * width
    &&& worth(s.f1) == worth(cost(f, values, s.x1))
    &&& worth(s.f2) == worth(cost(f, values, s.x2))
}

/// A search begins with a well cut interval from minus five to five.
pub proof fn law_golden_start<V: Number, F: Functions<V>>(
    worth: spec_fn(V) -> real,
    f: &F,
    values: Seq<V>,
)
    requires
        crate::exact::exact(worth),
        crate::exact::roots(f, worth),
    ensures
        well_cut(worth, f, values, golden_start(f, values)),
        worth(golden_start::<V, F>(f, values).a) == 0real - 5real,
        worth(golden_start::<V, F>(f, values).b) == 5real,
{
}

/// A step leaves a well cut part of the interval, smaller by the golden share,
/// that holds the point where the cost was less. What is cut off lies beyond the
/// point where it was not less.
pub proof fn law_golden_step<V: Number, F: Functions<V>>(
    worth: spec_fn(V) -> real,
    f: &F,
    values: Seq<V>,
    s: Section<V>,
)
    requires
        crate::exact::exact(worth),
        crate::exact::distinct::<V>(),
        crate::exact::roots(f, worth),
        well_cut(worth, f, values, s),
    ensures
        ({
            let t = golden_step(f, values, s);
            let share = worth(golden_share::<V, F>(f));
            &&& well_cut(worth, f, values, t)
            &&& worth(t.b) - worth(t.a) == (1real - share) * (worth(s.b) - worth(s.a))
            &&& worth(s.a) <= worth(t.a) && worth(t.b) <= worth(s.b)
            &&& worth(cost(f, values, s.x1)) < worth(cost(f, values, s.x2)) ==> worth(t.a)
                <= worth(s.x1) && worth(s.x1) <= worth(t.b) && worth(t.b) == worth(s.x2)
            &&& worth(cost(f, values, s.x1)) >= worth(cost(f, values, s.x2)) ==> worth(t.a)
                == worth(s.x1) && worth(t.a) <= worth(s.x2) && worth(s.x2) <= worth(t.b)
        }),
{
    law_golden_share::<V, F>(worth, f);
    let t = golden_step(f, values, s);
    let c = worth(golden_share::<V, F>(f));
    let w = worth(s.b) - worth(s.a);
    let v = worth(t.b) - worth(t.a);
    assert(v == w - c * w);
    assert(w - c * w == (1real - c) * w) by (nonlinear_arith);
    assert((1real - c) * w > 0real && c * w > 0real && 2real * (c * w) < w) by (nonlinear_arith)
        requires
            c > 1real / 3real,
            c < 2real / 5real,
            w > 0real,
    ;
    assert(c * v == w - 2real * (c * w)) by (nonlinear_arith)
        requires
            v == w - c * w,
            (1real - c) * (1real - c) == c,
    ;
}

/// A search only ever narrows its interval, and what it gives lies within it.
pub proof fn law_golden_search_narrows<V: Number, F: Functions<V>>(
    worth: spec_fn(V) -> real,
    f: &F,
    values: Seq<V>,
    tolerance: V,
    s: Section<V>,
    n: nat,
)
    requires
        crate::exact::exact(worth),
        crate::exact::distinct::<V>(),
        crate::exact::roots(f, worth),
        well_cut(worth, f, values, s),
    ensures
        ({
            let t = golden_search(f, values, tolerance, s, n);
            &&& well_cut(worth, f, values, t)
            &&& worth(s.a) <= worth(t.a) && worth(t.b) <= worth(s.b)
        }),
    decreases n,
{
    if n > 0 {
        law_golden_step(worth, f, values, s);
        law_golden_search_narrows(
            worth,
            f,
            values,
            tolerance,
            golden_step(f, values, s),
            (n - 1) as nat,
        );
    }
}

/// The parameter that is found for a list lies between minus five and five, in
/// the middle of the interval where the search ends.
pub proof fn law_best_lambda_is_within<V: Number, F: Functions<V>>(
    worth: spec_fn(V) -> real,
    f: &F,
    values: Seq<V>,
    tolerance: V,
    max_iter: nat,
)
    requires
        crate::exact::exact(worth),
        crate::exact::distinct::<V>(),
        crate::exact::roots(f, worth),
    ensures
        ({
            let r = worth(best_lambda(f, values, tolerance, max_iter));
            let t = golden_search(f, values, tolerance, golden_start(f, values), max_iter);
            &&& 0real - 5real < r && r < 5real
            &&& r - worth(t.a) == worth(t.b) - r
        }),
{
    law_golden_start(worth, f, values);
    law_golden_search_narrows(
        worth,
        f,
        values,
        tolerance,
        golden_start(f, values),
        max_iter,
    );
    let t = golden_search(f, values, tolerance, golden_start(f, values), max_iter);
    let r = best_lambda(f, values, tolerance, max_iter);
    assert(worth(r) == worth(crate::number::plus(t.a, t.b)) / 2real) by {
        assert(worth(crate::number::small::<V>(2)) == 2real);
    }
    assert(worth(crate::number::plus(t.a, t.b)) == worth(t.a) + worth(t.b));
}

} // verus!
