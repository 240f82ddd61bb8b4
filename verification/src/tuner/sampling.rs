//! Candidates at random.
//!
//! The numbers are drawn outside: the functions here say between which limits,
//! and what candidates come of them.

use crate::functions::Functions;
use crate::number::{greater, small_fraction, Number};
use crate::random::{permutations, seeded, Generator};
use crate::text_map::TextMap;
use crate::tuner::cartesian::name_row;
use crate::tuner::grid::find_window;
use crate::tuner::space::{ParamDef, ParameterSpace};
use vstd::prelude::*;

verus! {

/// The number that lies between `low` and `high` as `u` lies between zero and
/// one; on a logarithmic scale, its logarithm does.
pub open spec fn placed<V: Number, F: Functions<V>>(
    f: &F,
    low: V,
    high: V,
    log_scale: bool,
    u: V,
) -> V {
    if log_scale {
        let tiny = crate::number::tenth_to::<V>(10);
        let a = crate::functions::ln_of(f, crate::number::greater_of(low, tiny));
        let b = crate::functions::ln_of(f, crate::number::greater_of(high, tiny));
        crate::functions::exp_of(
            f,
            crate::number::plus(a, crate::number::times(u, crate::number::minus(b, a))),
        )
    } else {
        crate::number::plus(low, crate::number::times(u, crate::number::minus(high, low)))
    }
}

/// Computes [`placed`].
fn place<V: Number, F: Functions<V>>(low: V, high: V, log_scale: bool, u: V, f: &F) -> (r: V)
    requires
        crate::number::arithmetic::<V>(),
        crate::functions::computes(f),
    ensures
        r == placed(f, low, high, log_scale, u),
{
    if log_scale {
        let tiny: V = small_fraction(10);
        let a: V = f.ln(greater(low, tiny));
        let b: V = f.ln(greater(high, tiny));
        f.exp(a + u * (b - a))
    } else {
        low + u * (high - low)
    }
}

/// The parameter is searched on a logarithmic scale.
pub open spec fn on_log_scale<V>(param: ParamDef<V>) -> bool {
    param.bounds matches crate::tuner::space::ParamBounds::Continuous { log_scale, .. }
        && log_scale
}

/// The value of a parameter that a number between zero and one stands for,
/// where `spread` says how much of the range around the center is searched.
pub open spec fn sampled<V: Number, F: Functions<V>>(
    f: &F,
    param: ParamDef<V>,
    spread: V,
    u: V,
) -> V {
    let w = crate::tuner::grid::window(
        param.center,
        param.bounds.low(f),
        param.bounds.high(f),
        spread,
    );
    param.bounds.held(f, placed(f, w.0, w.1, on_log_scale(param), u))
}

/// Computes [`sampled`].
pub fn sample_value<V: Number, F: Functions<V>>(
    param: &ParamDef<V>,
    spread: V,
    u: V,
    f: &F,
) -> (r: V)
    requires
        crate::number::arithmetic::<V>(),
        crate::functions::computes(f),
        param.bounds.wf(),
    ensures
        r == sampled(f, *param, spread, u),
{
    let min: V = param.bounds.min_value(f);
    let max: V = param.bounds.max_value(f);
    let (low, high) = find_window(param.center, min, max, spread);
    let value: V = place(low, high, param.bounds.is_log_scale(), u, f);
    param.bounds.clamp(value, f)
}

/// Whatever is drawn, a parameter stays within its bounds.
pub proof fn law_sampled_within<V: Number, F: Functions<V>>(
    f: &F,
    param: ParamDef<V>,
    spread: V,
    u: V,
)
    requires
        crate::number::ordered::<V>(),
        crate::number::mirrored::<V>(),
        param.bounds.wf(),
    ensures
        match param.bounds {
            crate::tuner::space::ParamBounds::Continuous { min, max, .. } => !crate::number::below(
                sampled(f, param, spread, u),
                min,
            ) && !crate::number::above(sampled(f, param, spread, u), max),
            crate::tuner::space::ParamBounds::Discrete { min, max, step } => exists|n: usize|
                min <= n <= max && (n - min) % step as int == 0 && sampled(f, param, spread, u)
                    == #[trigger] crate::functions::count_of::<V, F>(f, n),
        },
{
    let w = crate::tuner::grid::window(
        param.center,
        param.bounds.low(f),
        param.bounds.high(f),
        spread,
    );
    let value = placed(f, w.0, w.1, on_log_scale(param), u);
    match param.bounds {
        crate::tuner::space::ParamBounds::Continuous { .. } => {
            crate::tuner::space::law_held_within(param.bounds, f, value);
        },
        crate::tuner::space::ParamBounds::Discrete { min, max, step } => {
            let n = crate::functions::whole_of(f, value);
            crate::tuner::space::law_grid_point(min, max, step, n);
            let point = crate::tuner::space::grid_point(min, max, step, n) as usize;
            assert(sampled(f, param, spread, u) == crate::functions::count_of::<V, F>(f, point));
        },
    }
}

/// The limits of layer `stratum` of the range from zero to one, divided into
/// `n` layers.
pub open spec fn layer<V: Number, F: Functions<V>>(f: &F, stratum: usize, n: usize) -> (V, V) {
    (
        crate::number::over(
            crate::functions::count_of::<V, F>(f, stratum),
            crate::functions::count_of::<V, F>(f, n),
        ),
        crate::number::over(
            crate::functions::count_of::<V, F>(f, (stratum + 1) as usize),
            crate::functions::count_of::<V, F>(f, n),
        ),
    )
}

/// A layer ends where the next one begins.
pub proof fn law_layers_touch<V: Number, F: Functions<V>>(f: &F, stratum: usize, n: usize)
    requires
        stratum + 1 < n,
    ensures
        layer::<V, F>(f, stratum, n).1 == layer::<V, F>(f, (stratum + 1) as usize, n).0,
{
}

/// Which layer of parameter `p` each candidate falls into, as a seed decides it.
pub open spec fn strata_of(seed: u64, p: int, n_samples: nat) -> Seq<usize> {
    crate::random::shuffled_after(
        crate::random::counting(n_samples),
        seed,
        crate::random::repeated(n_samples, p as nat),
    )
}

/// Which layer of which parameter each candidate falls into: for each parameter
/// a list with a layer for each candidate, in which every layer occurs once.
/// The generator is returned, to draw the numbers within the layers.
pub fn latin_strata(n_params: usize, n_samples: usize, seed: u64) -> (r: (
    Vec<Vec<usize>>,
    Generator,
))
    ensures
        r.0@.len() == n_params,
        forall|p: int|
            0 <= p < n_params ==> (#[trigger] r.0@[p])@ == strata_of(seed, p, n_samples as nat),
        forall|p: int|
            0 <= p < n_params ==> crate::random::is_permutation(
                (#[trigger] r.0@[p])@,
                n_samples as nat,
            ),
        r.1.seed() == seed,
        r.1.lengths() == crate::random::repeated(n_samples as nat, n_params as nat),
{
    let mut generator = seeded(seed);
    let strata = permutations(n_params, n_samples, &mut generator);
    assert forall|p: int| 0 <= p < n_params implies (#[trigger] strata@[p])@ == strata_of(
        seed,
        p,
        n_samples as nat,
    ) by {
        let lengths = crate::random::repeated(n_samples as nat, p as nat);
        assert(Seq::<nat>::empty() + lengths =~= lengths);
    }
    (strata, generator)
}

/// In every parameter, every layer belongs to exactly one candidate.
pub proof fn law_each_layer_once(strata: Seq<usize>, n_samples: nat, stratum: usize)
    requires
        crate::random::is_permutation(strata, n_samples),
        n_samples <= usize::MAX,
        stratum < n_samples,
    ensures
        exists|s: int| 0 <= s < n_samples && #[trigger] strata[s] == stratum,
        forall|s: int, t: int|
            0 <= s < n_samples && 0 <= t < n_samples && #[trigger] strata[s] == stratum
                && #[trigger] strata[t] == stratum ==> s == t,
{
    crate::random::law_permutation(strata, n_samples);
    assert(strata.contains(stratum));
}

/// Between which limits the number for each parameter of each candidate is
/// drawn: those of the layer that it falls into.
pub fn lhs_intervals<V: Number, F: Functions<V>>(
    strata: &[Vec<usize>],
    n_samples: usize,
    f: &F,
) -> (r: Vec<Vec<(V, V)>>)
    requires
        crate::number::arithmetic::<V>(),
        crate::functions::computes(f),
        forall|p: int|
            0 <= p < strata@.len() ==> crate::random::is_permutation(
                (#[trigger] strata@[p])@,
                n_samples as nat,
            ),
    ensures
        r@.len() == n_samples,
        forall|s: int|
            0 <= s < r@.len() ==> (#[trigger] r@[s])@ == Seq::new(
                strata@.len(),
                |p: int| layer::<V, F>(f, strata@[p]@[s], n_samples),
            ),
{
    let mut all: Vec<Vec<(V, V)>> = Vec::new();
    let n: V = f.count(n_samples);
    let mut s: usize = 0;
    while s < n_samples
        invariant
            crate::number::arithmetic::<V>(),
            crate::functions::computes(f),
            n == crate::functions::count_of::<V, F>(f, n_samples),
            forall|p: int|
                0 <= p < strata@.len() ==> crate::random::is_permutation(
                    (#[trigger] strata@[p])@,
                    n_samples as nat,
                ),
            s <= n_samples,
            all@.len() == s,
            forall|k: int|
                0 <= k < s ==> (#[trigger] all@[k])@ == Seq::new(
                    strata@.len(),
                    |p: int| layer::<V, F>(f, strata@[p]@[k], n_samples),
                ),
        decreases n_samples - s,
    {
        let mut row: Vec<(V, V)> = Vec::new();
        let mut p: usize = 0;
        while p < strata.len()
            invariant
                crate::number::arithmetic::<V>(),
                crate::functions::computes(f),
                n == crate::functions::count_of::<V, F>(f, n_samples),
                forall|q: int|
                    0 <= q < strata@.len() ==> crate::random::is_permutation(
                        (#[trigger] strata@[q])@,
                        n_samples as nat,
                    ),
                s < n_samples,
                p <= strata.len(),
                row@.len() == p,
                forall|q: int|
                    0 <= q < p ==> #[trigger] row@[q] == layer::<V, F>(
                        f,
                        strata@[q]@[s as int],
                        n_samples,
                    ),
            decreases strata.len() - p,
        {
            proof {
                assert(crate::random::is_permutation(strata@[p as int]@, n_samples as nat));
                crate::random::law_permutation(strata@[p as int]@, n_samples as nat);
                assert(strata@[p as int]@[s as int] < n_samples);
            }
            let stratum: usize = strata[p][s];
            let a: V = f.count(stratum);
            let b: V = f.count(stratum + 1);
            row.push((a / n, b / n));
            p = p + 1;
        }
        assert(row@ =~= Seq::new(
            strata@.len(),
            |p: int| layer::<V, F>(f, strata@[p]@[s as int], n_samples),
        ));
        all.push(row);
        s = s + 1;
    }
    all
}

/// The values of the parameters that the numbers drawn for a candidate stand
/// for.
pub open spec fn sampled_row<V: Number, F: Functions<V>>(
    f: &F,
    space: ParameterSpace<V>,
    spread: V,
    draws: Seq<V>,
) -> Seq<V> {
    Seq::new(space.params@.len(), |p: int| sampled(f, space.params@[p], spread, draws[p]))
}

/// The candidates that the numbers drawn for them stand for.
pub fn sampled_candidates<V: Number, F: Functions<V>>(
    space: &ParameterSpace<V>,
    spread: V,
    draws: &[Vec<V>],
    f: &F,
) -> (r: Vec<TextMap<V>>)
    requires
        crate::number::arithmetic::<V>(),
        crate::functions::computes(f),
        space.wf(),
        space.names_differ(),
        forall|s: int|
            0 <= s < draws@.len() ==> (#[trigger] draws@[s])@.len() == space.params@.len(),
    ensures
        r@.len() == draws@.len(),
        forall|s: int|
            0 <= s < r@.len() ==> (#[trigger] r@[s])@ == crate::text_map::entries_of(
                space.names(),
                sampled_row(f, *space, spread, draws@[s]@),
            ),
{
    let mut candidates: Vec<TextMap<V>> = Vec::new();
    let mut s: usize = 0;
    while s < draws.len()
        invariant
            crate::number::arithmetic::<V>(),
            crate::functions::computes(f),
            space.wf(),
            space.names_differ(),
            forall|k: int|
                0 <= k < draws@.len() ==> (#[trigger] draws@[k])@.len() == space.params@.len(),
            s <= draws.len(),
            candidates@.len() == s,
            forall|k: int|
                0 <= k < s ==> (#[trigger] candidates@[k])@ == crate::text_map::entries_of(
                    space.names(),
                    sampled_row(f, *space, spread, draws@[k]@),
                ),
        decreases draws.len() - s,
    {
        assert(draws@[s as int]@.len() == space.params@.len());
        let mut row: Vec<V> = Vec::new();
        let mut p: usize = 0;
        while p < space.params.len()
            invariant
                crate::number::arithmetic::<V>(),
                crate::functions::computes(f),
                space.wf(),
                s < draws.len(),
                draws@[s as int]@.len() == space.params@.len(),
                p <= space.params.len(),
                row@.len() == p,
                forall|q: int|
                    0 <= q < p ==> #[trigger] row@[q] == sampled(
                        f,
                        space.params@[q],
                        spread,
                        draws@[s as int]@[q],
                    ),
            decreases space.params.len() - p,
        {
            assert(space.params@[p as int].bounds.wf());
            row.push(sample_value(&space.params[p], spread, draws[s][p], f));
            p = p + 1;
        }
        assert(row@ =~= sampled_row(f, *space, spread, draws@[s as int]@));
        candidates.push(name_row(space, row.as_slice()));
        s = s + 1;
    }
    candidates
}

/// Where the random numbers of a new zone start.
pub fn zone_seed(seed: u64, trials: usize) -> (r: u64)
    ensures
        r == (seed + trials) % 0x1_0000_0000_0000_0000,
{
    let n: u64 = trials as u64;
    if seed <= u64::MAX - n {
        seed + n
    } else {
        seed - (u64::MAX - n) - 1
    }
}

/// A parameter with the center that a number between zero and one stands for in
/// its whole range.
pub open spec fn moved<V: Number, F: Functions<V>>(f: &F, param: ParamDef<V>, u: V) -> ParamDef<V> {
    ParamDef {
        center: param.bounds.held(
            f,
            placed(
                f,
                param.bounds.low(f),
                param.bounds.high(f),
                on_log_scale(param),
                u,
            ),
        ),
        ..param
    }
}

/// Moves the centers to where the numbers drawn for them say.
pub fn randomize_centers<V: Number, F: Functions<V>>(
    space: &mut ParameterSpace<V>,
    draws: &[V],
    f: &F,
)
    requires
        crate::number::arithmetic::<V>(),
        crate::functions::computes(f),
        old(space).wf(),
        draws@.len() == old(space).params@.len(),
    ensures
        final(space).params@ == Seq::new(
            old(space).params@.len(),
            |p: int| moved(f, old(space).params@[p], draws@[p]),
        ),
        final(space).wf(),
        old(space).names_differ() ==> final(space).names_differ(),
{
    let ghost before = space.params@;
    let mut p: usize = 0;
    while p < space.params.len()
        invariant
            crate::number::arithmetic::<V>(),
            crate::functions::computes(f),
            before == old(space).params@,
            old(space).wf(),
            draws@.len() == before.len(),
            space.params@.len() == before.len(),
            p <= before.len(),
            forall|q: int|
                0 <= q < p ==> #[trigger] space.params@[q] == moved(f, before[q], draws@[q]),
            forall|q: int| p <= q < before.len() ==> #[trigger] space.params@[q] == before[q],
        decreases before.len() - p,
    {
        assert(space.params@[p as int] == before[p as int]);
        let min: V = space.params[p].bounds.min_value(f);
        let max: V = space.params[p].bounds.max_value(f);
        let log_scale: bool = space.params[p].bounds.is_log_scale();
        let center: V = place(min, max, log_scale, draws[p], f);
        space.params[p].set_center(center, f);
        p = p + 1;
    }
    assert(space.params@ =~= Seq::new(before.len(), |p: int| moved(f, before[p], draws@[p])));
}

/// The number that stands for zero is the lower limit, the one that stands for one
/// is the upper limit, and on the way even steps lead even distances.
pub proof fn law_placed_evenly<V: Number, F: Functions<V>>(
    worth: spec_fn(V) -> real,
    f: &F,
    low: V,
    high: V,
    u: V,
)
    requires
        crate::exact::exact(worth),
    ensures
        worth(u) == 0real ==> worth(placed(f, low, high, false, u)) == worth(low),
        worth(u) == 1real ==> worth(placed(f, low, high, false, u)) == worth(high),
        worth(placed(f, low, high, false, u)) - worth(low) == worth(u) * (worth(high) - worth(low)),
{
    let d = worth(high) - worth(low);
    assert(0real * d == 0real) by (nonlinear_arith);
    assert(1real * d == d) by (nonlinear_arith);
}

/// On a logarithmic scale, even steps lead even distances of the logarithms, from
/// that of the lower limit to that of the upper one.
pub proof fn law_placed_evenly_by_logarithm<V: Number, F: Functions<V>>(
    worth: spec_fn(V) -> real,
    f: &F,
    low: V,
    high: V,
    u: V,
)
    requires
        crate::exact::exact(worth),
        crate::exact::powers(f, worth),
        worth(low) > worth(crate::number::tenth_to::<V>(10)),
        worth(high) > worth(crate::number::tenth_to::<V>(10)),
    ensures
        ({
            let r = worth(crate::functions::ln_of(f, placed(f, low, high, true, u)));
            let a = worth(crate::functions::ln_of(f, low));
            let b = worth(crate::functions::ln_of(f, high));
            r - a == worth(u) * (b - a)
        }),
{
    let tiny = crate::number::tenth_to::<V>(10);
    assert(crate::number::greater_of(low, tiny) == low);
    assert(crate::number::greater_of(high, tiny) == high);
    let a = crate::functions::ln_of(f, low);
    let b = crate::functions::ln_of(f, high);
    let sum = crate::number::plus(a, crate::number::times(u, crate::number::minus(b, a)));
    assert(placed(f, low, high, true, u) == crate::functions::exp_of(f, sum));
    assert(worth(crate::functions::ln_of(f, crate::functions::exp_of(f, sum))) == worth(sum));
}

} // verus!
