//! The values at which a parameter is tried.

use crate::functions::Functions;
use crate::number::{greater, lesser, magnitude, Number};
use crate::preprocessing::imputer::sort_numbers;
use crate::tuner::space::{find_grid_point, find_grid_point_above, ParamBounds, ParamDef};
use vstd::prelude::*;

verus! {

/// The part of a range that is searched: `spread` says how much of the range,
/// and it lies around `center`, as far as the range goes.
pub open spec fn window<V: Number>(center: V, min: V, max: V, spread: V) -> (V, V) {
    let half = crate::number::over(
        crate::number::times(crate::number::minus(max, min), spread),
        crate::number::small(2),
    );
    (
        crate::number::greater_of(crate::number::minus(center, half), min),
        crate::number::lesser_of(crate::number::plus(center, half), max),
    )
}

/// Computes [`window`].
pub fn find_window<V: Number>(center: V, min: V, max: V, spread: V) -> (r: (V, V))
    requires
        crate::number::arithmetic::<V>(),
    ensures
        r == window(center, min, max, spread),
{
    let two: V = V::from(2u8);
    let half: V = (max - min) * spread / two;
    (greater(center - half, min), lesser(center + half, max))
}

/// Entry `i` of `points` numbers that go from `low` to `high` in even steps.
pub open spec fn between<V: Number, F: Functions<V>>(
    f: &F,
    low: V,
    high: V,
    i: usize,
    points: usize,
) -> V {
    crate::number::plus(
        low,
        crate::number::times(
            crate::number::over(
                crate::functions::count_of::<V, F>(f, i),
                crate::functions::count_of::<V, F>(f, (points - 1) as usize),
            ),
            crate::number::minus(high, low),
        ),
    )
}

/// Computes [`between`].
fn between_number<V: Number, F: Functions<V>>(
    low: V,
    high: V,
    i: usize,
    points: usize,
    f: &F,
) -> (r: V)
    requires
        crate::number::arithmetic::<V>(),
        crate::functions::computes(f),
        points >= 1,
    ensures
        r == between(f, low, high, i, points),
{
    let a: V = f.count(i);
    let b: V = f.count(points - 1);
    low + a / b * (high - low)
}

/// Numbers that go through a window in even steps.
pub open spec fn linear_points<V: Number, F: Functions<V>>(
    f: &F,
    center: V,
    min: V,
    max: V,
    spread: V,
    points: usize,
) -> Seq<V> {
    let w = window(center, min, max, spread);
    Seq::new(points as nat, |i: int| between(f, w.0, w.1, i as usize, points))
}

/// Numbers whose logarithms go through a window in even steps.
pub open spec fn log_points<V: Number, F: Functions<V>>(
    f: &F,
    center: V,
    min: V,
    max: V,
    spread: V,
    points: usize,
) -> Seq<V> {
    let w = window(
        crate::functions::ln_of(f, center),
        crate::functions::ln_of(f, min),
        crate::functions::ln_of(f, max),
        spread,
    );
    Seq::new(
        points as nat,
        |i: int| crate::functions::exp_of(f, between(f, w.0, w.1, i as usize, points)),
    )
}

/// The ends of the whole numbers that are tried: the grid points of the
/// parameter around a window.
pub open spec fn step_ends<V: Number, F: Functions<V>>(
    f: &F,
    center: V,
    min: usize,
    max: usize,
    step: usize,
    spread: V,
) -> (int, int) {
    let w = window(
        center,
        crate::functions::count_of::<V, F>(f, min),
        crate::functions::count_of::<V, F>(f, max),
        spread,
    );
    (
        crate::tuner::space::grid_point(min, max, step, crate::functions::whole_of(f, w.0)),
        crate::tuner::space::grid_point_above(min, max, step, crate::functions::whole_of(f, w.1)),
    )
}

/// How many numbers there are from end to end in steps.
pub open spec fn step_count(ends: (int, int), step: usize) -> nat {
    if ends.0 > ends.1 {
        0
    } else {
        ((ends.1 - ends.0) / step as int + 1) as nat
    }
}

/// The whole numbers from end to end in steps, as numbers.
pub open spec fn step_points<V: Number, F: Functions<V>>(
    f: &F,
    ends: (int, int),
    step: usize,
) -> Seq<V> {
    Seq::new(
        step_count(ends, step),
        |i: int| crate::functions::count_of::<V, F>(f, (ends.0 + i * step) as usize),
    )
}

/// So many entries of a list at most, in even steps from the first on.
pub open spec fn thinned<A>(list: Seq<A>, points: nat) -> Seq<A> {
    if list.len() > points {
        Seq::new(points, |i: int| list[i * (list.len() / points)])
    } else {
        list
    }
}

/// The place of the entry nearest to `v`: the first, and from there on every
/// one that is nearer than the nearest so far.
pub open spec fn nearest<V: Number>(list: Seq<V>, v: V) -> Option<int>
    decreases list.len(),
{
    if list.len() == 0 {
        None
    } else {
        match nearest(list.drop_last(), v) {
            Some(i) => if crate::number::above(
                crate::number::absolute(crate::number::minus(list[i], v)),
                crate::number::absolute(crate::number::minus(list.last(), v)),
            ) {
                Some(list.len() - 1)
            } else {
                Some(i)
            },
            None => Some(list.len() - 1),
        }
    }
}

/// An entry equals `v`.
pub open spec fn holds<V: Number>(list: Seq<V>, v: V) -> bool {
    exists|i: int| 0 <= i < list.len() && crate::number::same(#[trigger] list[i], v)
}

/// A list with `v` in place of the nearest entry, unless it is there already.
pub open spec fn with_center<V: Number>(list: Seq<V>, v: V) -> Seq<V> {
    if holds(list, v) {
        list
    } else {
        match nearest(list, v) {
            Some(i) => list.update(i, v),
            None => list,
        }
    }
}

/// A list without the entries that equal the last one kept before them.
pub open spec fn without_repeats<V: Number>(list: Seq<V>) -> Seq<V>
    decreases list.len(),
{
    if list.len() == 0 {
        Seq::empty()
    } else {
        let kept = without_repeats(list.drop_last());
        if kept.len() > 0 && crate::number::same(list.last(), kept.last()) {
            kept
        } else {
            kept.push(list.last())
        }
    }
}

/// The whole numbers at which a parameter is tried, before they are sorted.
pub open spec fn discrete_points<V: Number, F: Functions<V>>(
    f: &F,
    param: ParamDef<V>,
    min: usize,
    max: usize,
    step: usize,
    spread: V,
    points: usize,
) -> Seq<V> {
    with_center(
        thinned(
            step_points::<V, F>(f, step_ends(f, param.center, min, max, step, spread), step),
            points as nat,
        ),
        param.bounds.held(f, param.center),
    )
}

/// `sorted` holds the entries of `list` in ascending order.
pub open spec fn sorts<V: Number>(list: Seq<V>, sorted: Seq<V>) -> bool {
    &&& crate::preprocessing::imputer::ascending(sorted)
    &&& sorted.to_multiset() == list.to_multiset()
}

/// `values` are the values at which a parameter is tried.
pub open spec fn tries<V: Number, F: Functions<V>>(
    f: &F,
    param: ParamDef<V>,
    spread: V,
    points: usize,
    values: Seq<V>,
) -> bool {
    if points == 1 {
        values == seq![param.center]
    } else {
        match param.bounds {
            ParamBounds::Continuous { min, max, log_scale } => if log_scale {
                values == log_points(f, param.center, min, max, spread, points)
            } else {
                values == linear_points(f, param.center, min, max, spread, points)
            },
            ParamBounds::Discrete { min, max, step } => exists|sorted: Seq<V>| #[trigger]
                sorts(discrete_points(f, param, min, max, step, spread, points), sorted) && values
                    == without_repeats(sorted),
        }
    }
}

/// The whole numbers that `f` makes are numbers.
pub open spec fn counts_are_numbers<V: Number, F: Functions<V>>(f: &F) -> bool {
    forall|n: usize| !crate::number::missing(#[trigger] crate::functions::count_of::<V, F>(f, n))
}

/// Computes [`step_points`].
fn list_steps<V: Number, F: Functions<V>>(low: usize, high: usize, step: usize, f: &F) -> (r: Vec<
    V,
>)
    requires
        crate::functions::computes(f),
        step > 0,
    ensures
        r@ == step_points::<V, F>(f, (low as int, high as int), step),
{
    let ghost ends = (low as int, high as int);
    let mut list: Vec<V> = Vec::new();
    if low > high {
        assert(list@ =~= step_points::<V, F>(f, ends, step));
        return list;
    }
    let steps: usize = (high - low) / step;
    proof {
        let d = high - low;
        let s = step as int;
        assert((d / s) * s <= d) by (nonlinear_arith)
            requires
                s > 0,
                d >= 0,
        ;
    }
    let mut k: usize = 0;
    while k < steps
        invariant
            crate::functions::computes(f),
            low <= high,
            steps * step <= high - low,
            k <= steps,
            list@.len() == k,
            forall|i: int|
                0 <= i < k ==> #[trigger] list@[i] == crate::functions::count_of::<V, F>(
                    f,
                    (low + i * step) as usize,
                ),
        decreases steps - k,
    {
        assert(0 <= k * step <= steps * step) by (nonlinear_arith)
            requires
                0 <= k <= steps,
                step >= 0,
        ;
        list.push(f.count(low + k * step));
        k = k + 1;
    }
    assert(steps * step >= 0) by (nonlinear_arith);
    list.push(f.count(low + steps * step));
    assert(list@ =~= step_points::<V, F>(f, ends, step));
    list
}

/// Computes [`thinned`].
fn thin<V: Copy>(list: Vec<V>, points: usize) -> (r: Vec<V>)
    requires
        points > 0,
    ensures
        r@ == thinned(list@, points as nat),
{
    if list.len() <= points {
        return list;
    }
    let len: usize = list.len();
    let gap: usize = len / points;
    let mut out: Vec<V> = Vec::new();
    let mut i: usize = 0;
    proof {
        let l = list@.len() as int;
        let p = points as int;
        assert(gap as int * p <= l) by (nonlinear_arith)
            requires
                p > 0,
                l >= 0,
                gap as int == l / p,
        ;
    }
    while i < points
        invariant
            len == list@.len(),
            gap as int == list@.len() as int / points as int,
            gap * points <= list@.len(),
            list@.len() > points,
            points > 0,
            i <= points,
            out@.len() == i,
            forall|k: int| 0 <= k < i ==> #[trigger] out@[k] == list@[k * gap],
        decreases points - i,
    {
        proof {
            assert(gap >= 1) by (nonlinear_arith)
                requires
                    gap as int == list@.len() as int / points as int,
                    list@.len() > points,
                    points > 0,
            ;
            assert(i * gap < gap * points) by (nonlinear_arith)
                requires
                    i < points,
                    gap >= 1,
            ;
            assert(i * gap >= 0) by (nonlinear_arith);
        }
        out.push(list[i * gap]);
        i = i + 1;
    }
    assert(out@ =~= thinned(list@, points as nat));
    out
}

/// Computes [`with_center`].
fn put_center<V: Number>(list: Vec<V>, v: V) -> (r: Vec<V>)
    requires
        crate::number::arithmetic::<V>(),
    ensures
        r@ == with_center(list@, v),
{
    let ghost all = list@;
    let mut out = list;
    let mut best: Option<usize> = None;
    let mut i: usize = 0;
    assert(out@.take(0) =~= Seq::empty());
    while i < out.len()
        invariant
            crate::number::arithmetic::<V>(),
            out@ == all,
            all == list@,
            i <= out.len(),
            forall|k: int| 0 <= k < i ==> !crate::number::same(#[trigger] out@[k], v),
            match best {
                Some(b) => b < i && nearest(out@.take(i as int), v) == Some(b as int),
                None => nearest(out@.take(i as int), v) is None,
            },
        decreases out.len() - i,
    {
        assert(out@.take(i + 1).drop_last() =~= out@.take(i as int));
        if out[i] == v {
            assert(holds(out@, v));
            return out;
        }
        let nearer: bool = match best {
            Some(b) => magnitude(out[b] - v) > magnitude(out[i] - v),
            None => true,
        };
        if nearer {
            best = Some(i);
        }
        i = i + 1;
    }
    assert(out@.take(i as int) =~= out@);
    assert(!holds(out@, v));
    if let Some(b) = best {
        out.set(b, v);
    }
    out
}

/// Computes [`without_repeats`].
fn drop_repeats<V: Number>(list: &[V]) -> (r: Vec<V>)
    requires
        crate::number::arithmetic::<V>(),
    ensures
        r@ == without_repeats(list@),
{
    let mut out: Vec<V> = Vec::new();
    let mut i: usize = 0;
    assert(list@.take(0) =~= Seq::empty());
    while i < list.len()
        invariant
            crate::number::arithmetic::<V>(),
            i <= list.len(),
            out@ == without_repeats(list@.take(i as int)),
        decreases list.len() - i,
    {
        assert(list@.take(i + 1).drop_last() =~= list@.take(i as int));
        if !(out.len() > 0 && list[i] == out[out.len() - 1]) {
            out.push(list[i]);
        }
        i = i + 1;
    }
    assert(list@.take(i as int) =~= list@);
    out
}

/// The values at which a parameter is tried: so many numbers in a window around
/// its center, in even steps. Of whole numbers, they are grid points between the
/// ends, and the center is one of them.
pub fn generate_param_values<V: Number, F: Functions<V>>(
    param: &ParamDef<V>,
    spread: V,
    points: usize,
    f: &F,
) -> (r: Vec<V>)
    requires
        crate::number::arithmetic::<V>(),
        crate::number::ordered::<V>(),
        crate::number::ranked::<V>(),
        crate::functions::computes(f),
        counts_are_numbers::<V, F>(f),
        param.bounds.wf(),
        points > 0,
    ensures
        tries(f, *param, spread, points, r@),
{
    let center: V = param.center;
    let min: V = param.bounds.min_value(f);
    let max: V = param.bounds.max_value(f);
    if points == 1 {
        let mut one: Vec<V> = Vec::new();
        one.push(center);
        assert(one@ =~= seq![center]);
        return one;
    }
    match param.bounds {
        ParamBounds::Continuous { log_scale, .. } => {
            let (low, high) = if log_scale {
                find_window(f.ln(center), f.ln(min), f.ln(max), spread)
            } else {
                find_window(center, min, max, spread)
            };
            let mut values: Vec<V> = Vec::new();
            let mut i: usize = 0;
            while i < points
                invariant
                    crate::number::arithmetic::<V>(),
                    crate::functions::computes(f),
                    points > 0,
                    i <= points,
                    values@.len() == i,
                    forall|k: int|
                        0 <= k < i ==> #[trigger] values@[k] == (if log_scale {
                            crate::functions::exp_of(f, between(f, low, high, k as usize, points))
                        } else {
                            between(f, low, high, k as usize, points)
                        }),
                decreases points - i,
            {
                let v: V = between_number(low, high, i, points, f);
                if log_scale {
                    values.push(f.exp(v));
                } else {
                    values.push(v);
                }
                i = i + 1;
            }
            proof {
                if log_scale {
                    assert(values@ =~= log_points(f, center, min, max, spread, points));
                } else {
                    assert(values@ =~= linear_points(f, center, min, max, spread, points));
                }
            }
            values
        },
        ParamBounds::Discrete { min: least, max: most, step } => {
            let (low, high) = find_window(center, min, max, spread);
            let first: usize = find_grid_point(least, most, step, f.whole(low));
            let last: usize = find_grid_point_above(least, most, step, f.whole(high));
            let all: Vec<V> = list_steps(first, last, step, f);
            let some = thin(all, points);
            let center_val: V = param.bounds.clamp(center, f);
            let chosen = put_center(some, center_val);
            let ghost list = discrete_points(f, *param, least, most, step, spread, points);
            proof {
                assert(chosen@ == list);
                assert forall|i: int| 0 <= i < chosen@.len() implies !crate::number::missing(
                    #[trigger] chosen@[i],
                ) by {
                    lemma_on_grid(f, *param, spread, points, i);
                }
            }
            let sorted = sort_numbers(chosen.as_slice());
            assert(sorts(list, sorted@));
            drop_repeats(sorted.as_slice())
        },
    }
}

/// The nearest entry has a place in the list.
proof fn lemma_nearest_in_range<V: Number>(list: Seq<V>, v: V)
    ensures
        list.len() == 0 <==> nearest(list, v) is None,
        nearest(list, v) matches Some(i) ==> 0 <= i < list.len(),
    decreases list.len(),
{
    if list.len() > 0 {
        lemma_nearest_in_range(list.drop_last(), v);
    }
}

/// A number is a grid point between the ends.
pub open spec fn on_grid<V: Number, F: Functions<V>>(
    f: &F,
    min: usize,
    max: usize,
    step: usize,
    v: V,
) -> bool {
    exists|n: usize|
        {
            &&& min <= n <= max
            &&& (n - min) % step as int == 0
            &&& v == #[trigger] crate::functions::count_of::<V, F>(f, n)
        }
}

/// A whole number of steps from a grid point on, and not past another, lies a
/// grid point.
proof fn lemma_steps_on_grid(min: int, low: int, high: int, step: int, k: int)
    requires
        step > 0,
        min <= low <= high,
        (low - min) % step == 0,
        0 <= k <= (high - low) / step,
    ensures
        low <= low + k * step <= high,
        (low + k * step - min) % step == 0,
{
    let d = high - low;
    assert(0 <= k * step <= (d / step) * step <= d) by (nonlinear_arith)
        requires
            step > 0,
            d >= 0,
            0 <= k <= d / step,
    ;
    vstd::arithmetic::div_mod::lemma_mod_multiples_vanish(k, low - min, step);
    assert(step * k + (low - min) == low + k * step - min) by (nonlinear_arith);
}

/// The whole numbers at which a parameter is tried are grid points.
proof fn lemma_on_grid<V: Number, F: Functions<V>>(
    f: &F,
    param: ParamDef<V>,
    spread: V,
    points: usize,
    i: int,
)
    requires
        param.bounds.wf(),
        param.bounds is Discrete,
        points > 0,
        ({
            let (min, max, step) = (
                param.bounds->Discrete_min,
                param.bounds->Discrete_max,
                param.bounds->step,
            );
            0 <= i < discrete_points(f, param, min, max, step, spread, points).len()
        }),
    ensures
        ({
            let (min, max, step) = (
                param.bounds->Discrete_min,
                param.bounds->Discrete_max,
                param.bounds->step,
            );
            on_grid(
                f,
                min,
                max,
                step,
                discrete_points(f, param, min, max, step, spread, points)[i],
            )
        }),
{
    let (min, max, step) = (
        param.bounds->Discrete_min,
        param.bounds->Discrete_max,
        param.bounds->step,
    );
    let ends = step_ends(f, param.center, min, max, step, spread);
    let all = step_points::<V, F>(f, ends, step);
    let some = thinned(all, points as nat);
    let v = param.bounds.held(f, param.center);
    let n = crate::functions::whole_of(f, param.center);
    crate::tuner::space::law_grid_point(min, max, step, n);
    let point = crate::tuner::space::grid_point(min, max, step, n) as usize;
    assert(v == crate::functions::count_of::<V, F>(f, point));
    assert(on_grid(f, min, max, step, v));
    lemma_nearest_in_range(some, v);
    if i < some.len() && discrete_points(f, param, min, max, step, spread, points)[i] != v {
        let at = if all.len() > points {
            i * ((all.len() / points as nat) as int)
        } else {
            i
        };
        if all.len() > points {
            let gap = (all.len() / points as nat) as int;
            assert(0 <= i * gap < all.len()) by (nonlinear_arith)
                requires
                    0 <= i < points,
                    points > 0,
                    gap == all.len() as int / points as int,
                    all.len() > 0,
            ;
        }
        assert(some[i] == all[at]);
        let w = window(
            param.center,
            crate::functions::count_of::<V, F>(f, min),
            crate::functions::count_of::<V, F>(f, max),
            spread,
        );
        crate::tuner::space::law_grid_point(min, max, step, crate::functions::whole_of(f, w.0));
        crate::tuner::space::law_grid_point_above(min, max, step, crate::functions::whole_of(f, w.1));
        lemma_steps_on_grid(min as int, ends.0, ends.1, step as int, at);
        let value = (ends.0 + at * step) as usize;
        assert(all[at] == crate::functions::count_of::<V, F>(f, value));
    }
}

/// Whole numbers are tried between the ends of their range only, a whole number
/// of steps from the lower end.
pub proof fn law_tried_on_grid<V: Number, F: Functions<V>>(
    f: &F,
    param: ParamDef<V>,
    spread: V,
    points: usize,
    values: Seq<V>,
    i: int,
)
    requires
        param.bounds.wf(),
        param.bounds is Discrete,
        points > 1,
        tries(f, param, spread, points, values),
        0 <= i < values.len(),
    ensures
        on_grid(
            f,
            param.bounds->Discrete_min,
            param.bounds->Discrete_max,
            param.bounds->step,
            values[i],
        ),
{
    broadcast use vstd::seq_lib::group_to_multiset_ensures;

    let (min, max, step) = (
        param.bounds->Discrete_min,
        param.bounds->Discrete_max,
        param.bounds->step,
    );
    let list = discrete_points(f, param, min, max, step, spread, points);
    let sorted = choose|sorted: Seq<V>| #[trigger]
        sorts(list, sorted) && values == without_repeats(sorted);
    lemma_kept_from(sorted, i);
    assert(sorted.contains(values[i]));
    assert(sorted.to_multiset().contains(values[i]));
    assert(list.to_multiset().contains(values[i]));
    assert(list.contains(values[i]));
    let k = choose|k: int| 0 <= k < list.len() && list[k] == values[i];
    lemma_on_grid(f, param, spread, points, k);
}

/// A number that a list holds is still held without the repetitions.
proof fn lemma_still_held<V: Number>(list: Seq<V>, v: V)
    requires
        crate::number::ranked::<V>(),
        crate::number::comparable::<V>(),
        forall|k: int| 0 <= k < list.len() ==> !crate::number::missing(#[trigger] list[k]),
        !crate::number::missing(v),
        holds(list, v),
    ensures
        holds(without_repeats(list), v),
    decreases list.len(),
{
    let fewer = list.drop_last();
    let kept = without_repeats(fewer);
    let all = without_repeats(list);
    let last = list[list.len() - 1];
    assert forall|k: int| 0 <= k < fewer.len() implies !crate::number::missing(
        #[trigger] fewer[k],
    ) by {
        assert(!crate::number::missing(list[k]));
    }
    let i = choose|i: int| 0 <= i < list.len() && crate::number::same(#[trigger] list[i], v);
    if i < fewer.len() {
        assert(crate::number::same(fewer[i], v));
        lemma_still_held(fewer, v);
        let j = choose|j: int| 0 <= j < kept.len() && crate::number::same(#[trigger] kept[j], v);
        assert(all[j] == kept[j]);
    } else if kept.len() > 0 && crate::number::same(last, kept.last()) {
        lemma_kept_from(fewer, kept.len() - 1);
        let near = kept[kept.len() - 1];
        assert(!crate::number::missing(near));
        assert(!crate::number::above(near, last) && !crate::number::above(last, v));
        assert(!crate::number::above(v, last) && !crate::number::above(last, near));
        assert(crate::number::same(near, v));
        assert(all[kept.len() - 1] == near);
    } else {
        assert(all[kept.len() as int] == last);
    }
}

/// Where whole numbers are tried at all, the one that stands for the center is
/// among them.
pub proof fn law_center_tried<V: Number, F: Functions<V>>(
    f: &F,
    param: ParamDef<V>,
    spread: V,
    points: usize,
    values: Seq<V>,
)
    requires
        crate::number::ranked::<V>(),
        crate::number::comparable::<V>(),
        counts_are_numbers::<V, F>(f),
        param.bounds.wf(),
        param.bounds is Discrete,
        points > 1,
        tries(f, param, spread, points, values),
        values.len() > 0,
    ensures
        holds(values, param.bounds.held(f, param.center)),
{
    broadcast use vstd::seq_lib::group_to_multiset_ensures;

    let (min, max, step) = (
        param.bounds->Discrete_min,
        param.bounds->Discrete_max,
        param.bounds->step,
    );
    let v = param.bounds.held(f, param.center);
    let some = thinned(
        step_points::<V, F>(f, step_ends(f, param.center, min, max, step, spread), step),
        points as nat,
    );
    let list = discrete_points(f, param, min, max, step, spread, points);
    let sorted = choose|sorted: Seq<V>| #[trigger]
        sorts(list, sorted) && values == without_repeats(sorted);
    assert forall|k: int| 0 <= k < list.len() implies !crate::number::missing(
        #[trigger] list[k],
    ) by {
        lemma_on_grid(f, param, spread, points, k);
    }
    assert forall|k: int| 0 <= k < sorted.len() implies list.contains(#[trigger] sorted[k]) by {
        assert(sorted.contains(sorted[k]));
        assert(sorted.to_multiset().contains(sorted[k]));
        assert(list.to_multiset().contains(sorted[k]));
    }
    assert(list.len() == list.to_multiset().len());
    assert(sorted.len() == sorted.to_multiset().len());
    lemma_kept_from(sorted, 0);
    lemma_nearest_in_range(some, v);
    assert(holds(list, v)) by {
        if !holds(some, v) {
            let i = nearest(some, v)->0;
            assert(list[i] == v);
        }
    }
    let i = choose|i: int| 0 <= i < list.len() && crate::number::same(#[trigger] list[i], v);
    assert(list.contains(list[i]));
    assert(list.to_multiset().contains(list[i]));
    assert(sorted.to_multiset().contains(list[i]));
    assert(sorted.contains(list[i]));
    let k = choose|k: int| 0 <= k < sorted.len() && sorted[k] == list[i];
    assert(crate::number::same(sorted[k], v));
    lemma_still_held(sorted, v);
}

/// A sorted list of numbers without its repetitions ascends strictly: no number
/// occurs twice.
pub proof fn law_no_value_repeats<V: Number>(list: Seq<V>, i: int, j: int)
    requires
        crate::number::ordered::<V>(),
        crate::number::comparable::<V>(),
        crate::preprocessing::imputer::ascending(list),
        forall|k: int| 0 <= k < list.len() ==> !crate::number::missing(#[trigger] list[k]),
        0 <= i < j < without_repeats(list).len(),
    ensures
        crate::number::above(without_repeats(list)[j], without_repeats(list)[i]),
        !crate::number::same(without_repeats(list)[i], without_repeats(list)[j]),
{
    lemma_kept_ascend(list);
    lemma_kept_from(list, i);
    lemma_kept_from(list, j);
}

proof fn lemma_kept_from<V: Number>(list: Seq<V>, i: int)
    requires
        0 <= i < without_repeats(list).len(),
    ensures
        list.contains(without_repeats(list)[i]),
    decreases list.len(),
{
    if list.len() > 0 {
        let fewer = list.drop_last();
        let kept = without_repeats(fewer);
        if i < kept.len() {
            lemma_kept_from(fewer, i);
            let k = choose|k: int| 0 <= k < fewer.len() && fewer[k] == kept[i];
            assert(list[k] == kept[i]);
        } else {
            assert(list[list.len() - 1] == without_repeats(list)[i]);
        }
    }
}

proof fn lemma_kept_ascend<V: Number>(list: Seq<V>)
    requires
        crate::number::ordered::<V>(),
        crate::number::comparable::<V>(),
        crate::preprocessing::imputer::ascending(list),
        forall|k: int| 0 <= k < list.len() ==> !crate::number::missing(#[trigger] list[k]),
    ensures
        forall|a: int, b: int|
            0 <= a < b < without_repeats(list).len() ==> crate::number::above(
                #[trigger] without_repeats(list)[b],
                #[trigger] without_repeats(list)[a],
            ),
    decreases list.len(),
{
    if list.len() > 0 {
        let fewer = list.drop_last();
        let kept = without_repeats(fewer);
        let v = list.last();
        assert forall|a: int, b: int| 0 <= a <= b < fewer.len() implies !crate::number::above(
            #[trigger] fewer[a],
            #[trigger] fewer[b],
        ) by {
            assert(!crate::number::above(list[a], list[b]));
        }
        assert forall|k: int| 0 <= k < fewer.len() implies !crate::number::missing(
            #[trigger] fewer[k],
        ) by {
            assert(!crate::number::missing(list[k]));
        }
        lemma_kept_ascend(fewer);
        if kept.len() > 0 && !crate::number::same(v, kept.last()) {
            lemma_kept_from(fewer, kept.len() - 1);
            let k = choose|k: int| 0 <= k < fewer.len() && fewer[k] == kept.last();
            assert(list[k] == kept.last());
            assert(!crate::number::above(list[k], list[list.len() - 1]));
            assert(!crate::number::missing(list[list.len() - 1]));
            assert(!crate::number::missing(list[k]));
            assert(crate::number::above(v, kept.last()));
            assert forall|a: int| 0 <= a < kept.len() implies crate::number::above(
                v,
                #[trigger] kept[a],
            ) by {
                if a < kept.len() - 1 {
                    assert(crate::number::above(kept[kept.len() - 1], kept[a]));
                }
            }
        }
    }
}

/// A window lies within the range and around the center: on either side it
/// reaches half the share of the range, or to the end of the range.
pub proof fn law_window_lies_around_center<V: Number>(
    worth: spec_fn(V) -> real,
    center: V,
    min: V,
    max: V,
    spread: V,
)
    requires
        crate::exact::exact(worth),
        worth(min) <= worth(center),
        worth(center) <= worth(max),
        worth(spread) >= 0real,
    ensures
        ({
            let w = window(center, min, max, spread);
            let share = (worth(max) - worth(min)) * worth(spread);
            &&& worth(min) <= worth(w.0) && worth(w.0) <= worth(center)
            &&& worth(center) <= worth(w.1) && worth(w.1) <= worth(max)
            &&& 2real * (worth(center) - worth(w.0)) <= share
            &&& 2real * (worth(w.1) - worth(center)) <= share
            &&& worth(w.0) == worth(min) || 2real * (worth(center) - worth(w.0)) == share
            &&& worth(w.1) == worth(max) || 2real * (worth(w.1) - worth(center)) == share
        }),
{
    let width = worth(max) - worth(min);
    let s = worth(spread);
    assert(width * s >= 0real) by (nonlinear_arith)
        requires
            width >= 0real,
            s >= 0real,
    ;
}

/// Numbers in even steps go from the lower end to the upper end, and each is as
/// far along as its place.
pub proof fn law_even_steps<V: Number, F: Functions<V>>(
    worth: spec_fn(V) -> real,
    f: &F,
    low: V,
    high: V,
    i: usize,
    points: usize,
)
    requires
        crate::exact::exact(worth),
        crate::exact::counts(f, worth),
        points > 1,
        i < points,
    ensures
        (worth(between(f, low, high, i, points)) - worth(low)) * ((points - 1) as real) == (
        i as real) * (worth(high) - worth(low)),
        i == 0 ==> worth(between(f, low, high, i, points)) == worth(low),
        i == points - 1 ==> worth(between(f, low, high, i, points)) == worth(high),
{
    let n = (points - 1) as real;
    let k = i as real;
    let d = worth(high) - worth(low);
    crate::exact::lemma_quotient(k, n);
    let q = k / n;
    assert((q * d) * n == (q * n) * d) by (nonlinear_arith);
    let e = worth(between(f, low, high, i, points)) - worth(low);
    assert(e == q * d);
    if i == 0 {
        assert(0real * d == 0real && n * 0real == 0real) by (nonlinear_arith);
        assert(e * n == n * e) by (nonlinear_arith);
        crate::exact::lemma_cancel(e, 0real, n);
    }
    if i == points - 1 {
        assert(e * n == n * e) by (nonlinear_arith);
        crate::exact::lemma_cancel(e, d, n);
    }
}

/// No entry is nearer than the nearest.
pub proof fn law_nearest_is_nearest<V: Number>(list: Seq<V>, v: V)
    requires
        crate::number::ordered::<V>(),
    ensures
        match nearest(list, v) {
            Some(i) => {
                &&& 0 <= i < list.len()
                &&& forall|j: int|
                    0 <= j < list.len() ==> !crate::number::above(
                        crate::number::absolute(crate::number::minus(list[i], v)),
                        crate::number::absolute(crate::number::minus(#[trigger] list[j], v)),
                    )
            },
            None => list.len() == 0,
        },
    decreases list.len(),
{
    if list.len() > 0 {
        let fewer = list.drop_last();
        law_nearest_is_nearest(fewer, v);
        let last = list.len() - 1;
        assert(list[last] == list.last());
        match nearest(fewer, v) {
            Some(i) => {
                let near = crate::number::absolute(crate::number::minus(list[i], v));
                let end = crate::number::absolute(crate::number::minus(list[last], v));
                assert(fewer[i] == list[i]);
                let b = nearest(list, v)->0;
                assert forall|j: int| 0 <= j < list.len() implies !crate::number::above(
                    crate::number::absolute(crate::number::minus(list[b], v)),
                    crate::number::absolute(crate::number::minus(#[trigger] list[j], v)),
                ) by {
                    if j < last {
                        assert(fewer[j] == list[j]);
                        assert(!crate::number::above(
                            near,
                            crate::number::absolute(crate::number::minus(fewer[j], v)),
                        ));
                    }
                }
            },
            None => {
                assert(fewer.len() == 0);
                assert(!crate::number::above(
                    crate::number::absolute(crate::number::minus(list[0], v)),
                    crate::number::absolute(crate::number::minus(list[0], v)),
                ));
            },
        }
    }
}

/// A thinned list holds as many entries as may be, from the first on, in their
/// order and all the same distance apart.
pub proof fn law_thinned_list<A>(list: Seq<A>, points: nat, i: int)
    requires
        points > 0,
        0 <= i < thinned(list, points).len(),
    ensures
        thinned(list, points).len() == (if list.len() < points {
            list.len()
        } else {
            points
        }),
        thinned(list, points)[0] == list[0],
        list.contains(thinned(list, points)[i]),
{
    if list.len() > points {
        let n = list.len() as int;
        let p = points as int;
        let step = n / p;
        assert(0 <= i * step < n) by (nonlinear_arith)
            requires
                0 <= i < p,
                step == n / p,
                n > p,
                p > 0,
        ;
        assert(list[i * step] == thinned(list, points)[i]);
        assert(0 * step == 0) by (nonlinear_arith);
    } else {
        assert(list[i] == thinned(list, points)[i]);
    }
}

/// The values at which a parameter is tried lie within its limits, on both sides of
/// its center, and in even steps.
pub proof fn law_values_in_even_steps<V: Number, F: Functions<V>>(
    worth: spec_fn(V) -> real,
    f: &F,
    param: ParamDef<V>,
    min: V,
    max: V,
    spread: V,
    points: usize,
    values: Seq<V>,
    i: int,
)
    requires
        crate::exact::exact(worth),
        crate::exact::counts(f, worth),
        param.bounds == (ParamBounds::Continuous { min, max, log_scale: false }),
        tries(f, param, spread, points, values),
        points > 1,
        worth(min) <= worth(param.center),
        worth(param.center) <= worth(max),
        worth(spread) >= 0real,
        0 <= i < points,
    ensures
        ({
            let (first, last) = (worth(values[0]), worth(values[points - 1]));
            &&& values.len() == points
            &&& worth(min) <= first && first <= worth(param.center)
            &&& worth(param.center) <= last && last <= worth(max)
            &&& (worth(values[i]) - first) * ((points - 1) as real) == (i as real) * (last - first)
        }),
{
    law_window_lies_around_center(worth, param.center, min, max, spread);
    let w = window(param.center, min, max, spread);
    law_even_steps(worth, f, w.0, w.1, 0, points);
    law_even_steps(worth, f, w.0, w.1, (points - 1) as usize, points);
    law_even_steps(worth, f, w.0, w.1, i as usize, points);
}

/// On a logarithmic scale the same holds of the logarithms.
pub proof fn law_logarithms_in_even_steps<V: Number, F: Functions<V>>(
    worth: spec_fn(V) -> real,
    f: &F,
    param: ParamDef<V>,
    min: V,
    max: V,
    spread: V,
    points: usize,
    values: Seq<V>,
    i: int,
)
    requires
        crate::exact::exact(worth),
        crate::exact::distinct::<V>(),
        crate::exact::counts(f, worth),
        crate::exact::powers(f, worth),
        param.bounds == (ParamBounds::Continuous { min, max, log_scale: true }),
        tries(f, param, spread, points, values),
        points > 1,
        0real < worth(min),
        worth(min) <= worth(param.center),
        worth(param.center) <= worth(max),
        worth(spread) >= 0real,
        0 <= i < points,
    ensures
        ({
            let ln = |v: V| worth(crate::functions::ln_of(f, v));
            let (first, last) = (ln(values[0]), ln(values[points - 1]));
            &&& values.len() == points
            &&& ln(min) <= first && first <= ln(param.center)
            &&& ln(param.center) <= last && last <= ln(max)
            &&& (ln(values[i]) - first) * ((points - 1) as real) == (i as real) * (last - first)
        }),
{
    let center = param.center;
    assert(crate::number::same(min, center) || worth(min) < worth(center));
    assert(crate::number::same(center, max) || worth(center) < worth(max));
    let a = crate::functions::ln_of(f, min);
    let b = crate::functions::ln_of(f, max);
    let c = crate::functions::ln_of(f, center);
    assert(worth(a) <= worth(c) && worth(c) <= worth(b));
    law_window_lies_around_center(worth, c, a, b, spread);
    let w = window(c, a, b, spread);
    law_even_steps(worth, f, w.0, w.1, 0, points);
    law_even_steps(worth, f, w.0, w.1, (points - 1) as usize, points);
    law_even_steps(worth, f, w.0, w.1, i as usize, points);
    let at = |k: int| between(f, w.0, w.1, k as usize, points);
    assert(values[0] == crate::functions::exp_of(f, at(0)));
    assert(values[i] == crate::functions::exp_of(f, at(i)));
    assert(values[points - 1] == crate::functions::exp_of(f, at(points - 1)));
}

} // verus!
