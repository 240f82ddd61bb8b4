//! Preprocessors that can be updated with further batches of data.

use crate::error::{Result, TreeBoostError};
use crate::functions::Functions;
use crate::number::Number;
use vstd::prelude::*;

verus! {

/// A scaler whose statistics can be updated without the data seen before.
pub trait IncrementalScaler<V>: Sized {
    /// Updates the statistics with a batch of rows, stored row by row.
    fn partial_fit(&mut self, data: &[V], num_features: usize) -> Result<()>;

    /// The number of rows seen so far.
    fn n_samples(&self) -> u64;

    /// Takes over what another scaler has seen.
    fn merge(&mut self, other: &Self) -> Result<()>;
}

/// An encoder whose statistics can be updated without the data seen before.
pub trait IncrementalEncoder {
    /// Updates the statistics with a batch of categories.
    fn partial_fit(&mut self, categories: &[&str]) -> Result<()>;

    /// The number of categories seen so far, repetitions counted.
    fn n_samples(&self) -> u64;
}

/// The complaint about a preprocessor that cannot be updated.
pub open spec fn not_incremental(name: Seq<char>) -> Seq<char> {
    name
        + " does not support incremental fitting. Schema is frozen after first fit. For incremental learning, use FrequencyEncoder or TargetEncoder instead of "@
        + name + "."@
}

/// The error of a preprocessor that cannot be updated.
pub fn not_supported_error(preprocessor_name: &str) -> (r: TreeBoostError)
    ensures
        r.is_config(not_incremental(preprocessor_name@)),
{
    let mut message = preprocessor_name.to_owned();
    message.append(
        " does not support incremental fitting. Schema is frozen after first fit. For incremental learning, use FrequencyEncoder or TargetEncoder instead of ",
    );
    message.append(preprocessor_name);
    message.append(".");
    TreeBoostError::Config(message)
}

/// The running mean and variance of a list of numbers, by the method of
/// Welford.
#[derive(Debug, Clone, Copy)]
pub struct WelfordState<V> {
    /// The number of numbers seen.
    pub n: u64,
    /// Their mean.
    pub mean: V,
    /// The sum of the squares of their distances from the mean.
    pub m2: V,
}

/// One more number seen.
pub open spec fn welford_step<V: Number, F: Functions<V>>(
    f: &F,
    s: WelfordState<V>,
    x: V,
) -> WelfordState<V> {
    let n = (s.n + 1) as u64;
    let delta = crate::number::minus(x, s.mean);
    let mean = crate::number::plus(
        s.mean,
        crate::number::over(delta, crate::functions::count_of::<V, F>(f, n as usize)),
    );
    let delta2 = crate::number::minus(x, mean);
    WelfordState {
        n,
        mean,
        m2: crate::number::plus(s.m2, crate::number::times(delta, delta2)),
    }
}

/// What two lists have together, by the method of Chan.
pub open spec fn welford_merge<V: Number, F: Functions<V>>(
    f: &F,
    a: WelfordState<V>,
    b: WelfordState<V>,
) -> WelfordState<V> {
    if b.n == 0 {
        a
    } else if a.n == 0 {
        b
    } else {
        let n = (a.n + b.n) as u64;
        let na = crate::functions::count_of::<V, F>(f, a.n as usize);
        let nb = crate::functions::count_of::<V, F>(f, b.n as usize);
        let all = crate::functions::count_of::<V, F>(f, n as usize);
        let delta = crate::number::minus(b.mean, a.mean);
        WelfordState {
            n,
            mean: crate::number::plus(
                a.mean,
                crate::number::times(delta, crate::number::over(nb, all)),
            ),
            m2: crate::number::plus(
                crate::number::plus(a.m2, b.m2),
                crate::number::times(
                    crate::number::times(delta, delta),
                    crate::number::over(crate::number::times(na, nb), all),
                ),
            ),
        }
    }
}

/// The numbers of a list, seen one after the other.
pub open spec fn welford_of<V: Number, F: Functions<V>>(f: &F, list: Seq<V>) -> WelfordState<V>
    decreases list.len(),
{
    if list.len() == 0 {
        WelfordState { n: 0, mean: crate::number::small(0), m2: crate::number::small(0) }
    } else {
        welford_step(f, welford_of(f, list.drop_last()), list.last())
    }
}

/// After a list has been seen, as many numbers have been seen as it holds.
pub proof fn law_welford_counts<V: Number, F: Functions<V>>(f: &F, list: Seq<V>)
    requires
        list.len() <= u64::MAX,
    ensures
        welford_of(f, list).n == list.len(),
    decreases list.len(),
{
    if list.len() > 0 {
        law_welford_counts(f, list.drop_last());
    }
}

/// Merging counts what both have seen, and merging with nothing changes
/// nothing.
pub proof fn law_welford_merge_counts<V: Number, F: Functions<V>>(
    f: &F,
    a: WelfordState<V>,
    b: WelfordState<V>,
)
    requires
        a.n + b.n <= u64::MAX,
    ensures
        welford_merge(f, a, b).n == a.n + b.n,
        b.n == 0 ==> welford_merge(f, a, b) == a,
        a.n == 0 && b.n > 0 ==> welford_merge(f, a, b) == b,
{
}

impl<V: Number> WelfordState<V> {
    /// Nothing seen yet.
    pub fn new() -> (r: Self)
        requires
            crate::number::arithmetic::<V>(),
        ensures
            r == (WelfordState {
                n: 0,
                mean: crate::number::small::<V>(0),
                m2: crate::number::small::<V>(0),
            }),
    {
        WelfordState { n: 0, mean: V::from(0u8), m2: V::from(0u8) }
    }

    /// Takes one more number into account.
    pub fn update<F: Functions<V>>(&mut self, x: V, f: &F)
        requires
            crate::number::arithmetic::<V>(),
            crate::functions::computes(f),
            old(self).n < usize::MAX,
            old(self).n < u64::MAX,
        ensures
            *final(self) == welford_step(f, *old(self), x),
    {
        let n: u64 = self.n + 1;
        let delta: V = x - self.mean;
        let count: V = f.count(n as usize);
        let mean: V = self.mean + delta / count;
        let delta2: V = x - mean;
        let m2: V = self.m2 + delta * delta2;
        self.n = n;
        self.mean = mean;
        self.m2 = m2;
    }

    /// The variance; zero, if nothing was seen.
    pub fn variance<F: Functions<V>>(&self, f: &F) -> (r: V)
        requires
            crate::number::arithmetic::<V>(),
            crate::functions::computes(f),
            self.n <= usize::MAX,
        ensures
            r == self.variance_of(f),
    {
        if self.n == 0 {
            V::from(0u8)
        } else {
            let count: V = f.count(self.n as usize);
            self.m2 / count
        }
    }

    /// The variance; zero, if nothing was seen.
    pub open spec fn variance_of<F: Functions<V>>(&self, f: &F) -> V {
        if self.n == 0 {
            crate::number::small(0)
        } else {
            crate::number::over(
                self.m2,
                crate::functions::count_of::<V, F>(f, self.n as usize),
            )
        }
    }

    /// The standard deviation.
    pub fn standard_deviation<F: Functions<V>>(&self, f: &F) -> (r: V)
        requires
            crate::number::arithmetic::<V>(),
            crate::functions::computes(f),
            self.n <= usize::MAX,
        ensures
            r == crate::functions::root_of(f, self.variance_of(f)),
    {
        f.root(self.variance(f))
    }

    /// Takes over what another has seen.
    pub fn merge<F: Functions<V>>(&mut self, other: &WelfordState<V>, f: &F)
        requires
            crate::number::arithmetic::<V>(),
            crate::functions::computes(f),
            old(self).n + other.n <= usize::MAX,
            old(self).n + other.n <= u64::MAX,
        ensures
            *final(self) == welford_merge(f, *old(self), *other),
    {
        if other.n == 0 {
            return ;
        }
        if self.n == 0 {
            *self = *other;
            return ;
        }
        let combined_n: u64 = self.n + other.n;
        let na: V = f.count(self.n as usize);
        let nb: V = f.count(other.n as usize);
        let all: V = f.count(combined_n as usize);
        let delta: V = other.mean - self.mean;
        let mean: V = self.mean + delta * (nb / all);
        let m2: V = self.m2 + other.m2 + delta * delta * (na * nb / all);
        self.n = combined_n;
        self.mean = mean;
        self.m2 = m2;
    }
}

/// A multiple of the square of a sum.
proof fn lemma_square_of_sum(c: real, a: real, b: real)
    ensures
        c * ((a + b) * (a + b)) == c * (a * a) + 2real * (a * (c * b)) + b * (c * b),
{
    let (p, q, r) = (a * a, a * b, b * b);
    assert((a + b) * (a + b) == a * a + 2real * (a * b) + b * b) by (nonlinear_arith);
    assert(c * (p + 2real * q + r) == c * p + 2real * (c * q) + c * r) by (nonlinear_arith);
    assert(c * (a * b) == a * (c * b)) by (nonlinear_arith);
    assert(c * (b * b) == b * (c * b)) by (nonlinear_arith);
}

proof fn lemma_step_algebra(n: real, m: real, x: real, e: real)
    requires
        (n + 1real) * e == x - m,
    ensures
        (n + 1real) * (m + e) == n * m + x,
        (x - m) * (x - (m + e)) - n * (m * m) == (x - 0real) * (x - 0real) - (n + 1real) * ((m + e)
            * (m + e)),
{
    let big = n + 1real;
    assert(big * (m + e) == big * m + big * e) by (nonlinear_arith);
    assert((n + 1real) * m == n * m + m) by (nonlinear_arith);
    lemma_square_of_sum(big, m, e);
    let p = m * m;
    assert((n + 1real) * p == n * p + p) by (nonlinear_arith);
    let d = x - m;
    assert(m * (x - m) == m * x - m * m) by (nonlinear_arith);
    assert(e * (x - m) == e * x - e * m) by (nonlinear_arith);
    assert((x - m) * (x - (m + e)) == x * x - 2real * (m * x) - e * x + m * m + e * m)
        by (nonlinear_arith);
    assert((x - 0real) * (x - 0real) == x * x) by (nonlinear_arith);
    assert(m * (big * e) == m * (x - m));
    assert(e * (big * e) == e * (x - m));
}

proof fn lemma_merge_algebra(
    m: real,
    n: real,
    u: real,
    d: real,
    share: real,
    factor: real,
    z: real,
)
    requires
        m + n > 0real,
        (m + n) * share == n,
        (m + n) * factor == m * n,
        (m + n) * z == m * u + n * (u + d),
    ensures
        u + d * share == z,
        (m + n) * (z * z) == m * (u * u) + n * ((u + d) * (u + d)) - (d * d) * factor,
{
    let all = m + n;
    let k = d * share;
    assert(all * (u + k) == all * u + all * k) by (nonlinear_arith);
    assert(all * (d * share) == d * (all * share)) by (nonlinear_arith);
    assert(all * k == d * n);
    assert((m + n) * u == m * u + n * u) by (nonlinear_arith);
    assert(n * (u + d) == n * u + d * n) by (nonlinear_arith);
    crate::exact::lemma_cancel(u + k, z, all);
    lemma_square_of_sum(all, u, k);
    lemma_square_of_sum(n, u, d);
    assert(n * d == d * n) by (nonlinear_arith);
    let e = d * n;
    assert(u * (all * k) == u * e);
    assert(u * (n * d) == u * e);
    assert(k * (all * k) == k * e);
    let h = share * n;
    assert((d * share) * e == d * (share * e)) by (nonlinear_arith);
    assert(share * (d * n) == d * (share * n)) by (nonlinear_arith);
    assert(d * (d * h) == (d * d) * h) by (nonlinear_arith);
    assert(k * e == (d * d) * h);
    assert(d * (d * n) == (d * d) * n) by (nonlinear_arith);
    assert(d * (n * d) == d * e);
    let p = u * u;
    assert((m + n) * p == m * p + n * p) by (nonlinear_arith);
    let rest = n - factor;
    assert(all * (n - factor) == all * n - all * factor) by (nonlinear_arith);
    assert((m + n) * n == m * n + n * n) by (nonlinear_arith);
    assert(all * (share * n) == (all * share) * n) by (nonlinear_arith);
    assert((all * share) * n == n * n);
    crate::exact::lemma_cancel(h, rest, all);
    let c = d * d;
    assert(c * (n - factor) == c * n - c * factor) by (nonlinear_arith);
    assert(c * h == c * rest);
}

proof fn lemma_welford_exact<V: Number, F: Functions<V>>(
    worth: spec_fn(V) -> real,
    f: &F,
    list: Seq<V>,
)
    requires
        crate::exact::exact(worth),
        crate::exact::counts(f, worth),
        list.len() <= usize::MAX,
        list.len() <= u64::MAX,
    ensures
        ({
            let s = welford_of(f, list);
            let n = list.len() as real;
            let m = worth(s.mean);
            &&& s.n == list.len()
            &&& n * m == worth(crate::number::total(list))
            &&& worth(s.m2) == worth(
                crate::number::total(
                    crate::preprocessing::scaler::square_deviations(list, crate::number::small(0)),
                ),
            ) - n * (m * m)
        }),
    decreases list.len(),
{
    let zero = crate::number::small::<V>(0);
    if list.len() > 0 {
        let fewer = list.drop_last();
        lemma_welford_exact(worth, f, fewer);
        let s = welford_of(f, fewer);
        let t = welford_of(f, list);
        let x = worth(list.last());
        let n = fewer.len() as real;
        let m = worth(s.mean);
        let d = x - m;
        let e = d / (n + 1real);
        let big = n + 1real;
        let square = crate::preprocessing::scaler::square_deviations(list, zero);
        assert(square.drop_last() =~= crate::preprocessing::scaler::square_deviations(
            fewer,
            zero,
        ));
        assert(worth(t.mean) == m + e);
        assert(worth(t.m2) == worth(s.m2) + d * (x - (m + e)));
        crate::exact::lemma_quotient(d, big);
        lemma_step_algebra(n, m, x, e);
    } else {
        assert(0real * worth(zero) == 0real && 0real * (worth(zero) * worth(zero)) == 0real)
            by (nonlinear_arith);
    }
}

/// What has been kept of a list is its mean and the sum of the squares of the
/// distances from it: the mean is the sum over the number, and the state holds
/// what a second look at the list would give.
pub proof fn law_welford_is_mean_and_squares<V: Number, F: Functions<V>>(
    worth: spec_fn(V) -> real,
    f: &F,
    list: Seq<V>,
)
    requires
        crate::exact::exact(worth),
        crate::exact::counts(f, worth),
        0 < list.len() <= usize::MAX,
        list.len() <= u64::MAX,
    ensures
        ({
            let s = welford_of(f, list);
            &&& s.n == list.len()
            &&& worth(s.mean) == worth(crate::preprocessing::scaler::mean_of(f, list))
            &&& worth(s.m2) == worth(
                crate::number::total(
                    crate::preprocessing::scaler::square_deviations(list, s.mean),
                ),
            )
            &&& worth(s.variance_of(f)) * list.len() as real == worth(s.m2)
        }),
{
    lemma_welford_exact(worth, f, list);
    let s = welford_of(f, list);
    crate::preprocessing::scaler::law_mean_balances(worth, f, list, s.mean);
    crate::preprocessing::scaler::lemma_square_deviations(worth, list, s.mean);
    let n = list.len() as real;
    let m = worth(s.mean);
    let mean = worth(crate::preprocessing::scaler::mean_of(f, list));
    let t = worth(crate::number::total(list));
    assert(mean * n == n * mean) by (nonlinear_arith);
    crate::exact::lemma_cancel(m, mean, n);
    assert(m * (n * m) == n * (m * m)) by (nonlinear_arith);
    assert(m * t == m * (n * m));
    let q = worth(s.m2);
    crate::exact::lemma_quotient(q, n);
}

/// Merging what has been kept of two lists gives what would have been kept of
/// both, seen one after the other.
pub proof fn law_merging_is_seeing_both<V: Number, F: Functions<V>>(
    worth: spec_fn(V) -> real,
    f: &F,
    a: Seq<V>,
    b: Seq<V>,
)
    requires
        crate::exact::exact(worth),
        crate::exact::counts(f, worth),
        a.len() + b.len() <= usize::MAX,
        a.len() + b.len() <= u64::MAX,
    ensures
        ({
            let merged = welford_merge(f, welford_of(f, a), welford_of(f, b));
            let both = welford_of(f, a + b);
            &&& merged.n == both.n
            &&& worth(merged.mean) == worth(both.mean)
            &&& worth(merged.m2) == worth(both.m2)
        }),
{
    let zero = crate::number::small::<V>(0);
    let p = welford_of(f, a);
    let q = welford_of(f, b);
    let merged = welford_merge(f, p, q);
    let both = welford_of(f, a + b);
    lemma_welford_exact(worth, f, a);
    lemma_welford_exact(worth, f, b);
    lemma_welford_exact(worth, f, a + b);
    if a.len() == 0 {
        assert(a + b =~= b);
    } else if b.len() == 0 {
        assert(a + b =~= a);
    } else {
        let sa = crate::preprocessing::scaler::square_deviations(a, zero);
        let sb = crate::preprocessing::scaler::square_deviations(b, zero);
        assert(crate::preprocessing::scaler::square_deviations(a + b, zero) =~= sa + sb);
        crate::exact::law_totals_add_up(worth, a, b, zero);
        crate::exact::law_totals_add_up(worth, sa, sb, zero);
        let (m, n) = (a.len() as real, b.len() as real);
        let (u, v) = (worth(p.mean), worth(q.mean));
        let d = v - u;
        let all = m + n;
        let share = n / all;
        let factor = m * n / all;
        let w = u + d * share;
        let z = worth(both.mean);
        assert(worth(merged.mean) == w);
        crate::exact::lemma_quotient(n, all);
        crate::exact::lemma_quotient(m * n, all);
        lemma_merge_algebra(m, n, u, d, share, factor, z);
        assert(u + d == v);
    }
}

} // verus!
