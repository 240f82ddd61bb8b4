//! The parameters that are tuned.

use crate::functions::Functions;
use crate::number::{clamp, ratio_number, Number};
use crate::text::{join3, same_text};
use crate::text_map::TextMap;
use vstd::prelude::*;

verus! {

/// Which values a parameter can take.
#[derive(Debug, Clone, Copy)]
pub enum ParamBounds<V> {
    /// Any number from `min` to `max`.
    Continuous {
        /// The least value.
        min: V,
        /// The greatest value.
        max: V,
        /// Whether the logarithm is what is spread evenly.
        log_scale: bool,
    },
    /// The whole numbers from `min` to `max` in steps.
    Discrete {
        /// The least value.
        min: usize,
        /// The greatest value.
        max: usize,
        /// The distance of two values.
        step: usize,
    },
}

/// The last value of the grid that starts at `min` and has this step, at `n` or
/// below, where `n` is first brought between `min` and `max`.
pub open spec fn grid_point(min: usize, max: usize, step: usize, n: usize) -> int {
    let held = if n < min {
        min as int
    } else if n > max {
        max as int
    } else {
        n as int
    };
    min + ((held - min) / step as int) * step
}

/// A grid point lies between the ends, a whole number of steps from the lower
/// one, and less than a step below what it stands for.
pub proof fn law_grid_point(min: usize, max: usize, step: usize, n: usize)
    requires
        min <= max,
        step > 0,
    ensures
        min <= grid_point(min, max, step, n) <= max,
        (grid_point(min, max, step, n) - min) % step as int == 0,
        min <= n <= max ==> grid_point(min, max, step, n) <= n < grid_point(min, max, step, n)
            + step,
{
    let held = if n < min {
        min as int
    } else if n > max {
        max as int
    } else {
        n as int
    };
    let d = held - min;
    let s = step as int;
    assert(d == s * (d / s) + d % s && 0 <= d % s < s) by (nonlinear_arith)
        requires
            s > 0,
    ;
    assert((d / s) * s == s * (d / s)) by (nonlinear_arith);
    assert(d / s >= 0) by (nonlinear_arith)
        requires
            d >= 0,
            s > 0,
    ;
    assert((d / s) * s >= 0) by (nonlinear_arith)
        requires
            d / s >= 0,
            s > 0,
    ;
    assert(((d / s) * s) % s == 0) by (nonlinear_arith)
        requires
            s > 0,
    ;
}

/// Computes [`grid_point`].
pub fn find_grid_point(min: usize, max: usize, step: usize, n: usize) -> (r: usize)
    requires
        min <= max,
        step > 0,
    ensures
        r == grid_point(min, max, step, n),
{
    let held: usize = if n < min {
        min
    } else if n > max {
        max
    } else {
        n
    };
    proof {
        law_grid_point(min, max, step, n);
    }
    let steps: usize = (held - min) / step;
    min + steps * step
}

/// The first grid point at or above `n`; the last one, where there is none.
pub open spec fn grid_point_above(min: usize, max: usize, step: usize, n: usize) -> int {
    let point = grid_point(min, max, step, n);
    if point < n && point + step <= max {
        point + step
    } else {
        point
    }
}

/// The first grid point at or above a number between the ends lies between them
/// too, a whole number of steps from the lower one, and less than a step above
/// the number.
pub proof fn law_grid_point_above(min: usize, max: usize, step: usize, n: usize)
    requires
        min <= max,
        step > 0,
    ensures
        min <= grid_point_above(min, max, step, n) <= max,
        (grid_point_above(min, max, step, n) - min) % step as int == 0,
        min <= n <= max ==> grid_point_above(min, max, step, n) < n + step,
        min <= n <= max && grid_point_above(min, max, step, n) < n ==> grid_point_above(
            min,
            max,
            step,
            n,
        ) + step > max,
{
    law_grid_point(min, max, step, n);
    let d = grid_point(min, max, step, n) - min;
    let s = step as int;
    assert((d + s) % s == 0) by (nonlinear_arith)
        requires
            s > 0,
            d % s == 0,
    ;
}

/// Computes [`grid_point_above`].
pub fn find_grid_point_above(min: usize, max: usize, step: usize, n: usize) -> (r: usize)
    requires
        min <= max,
        step > 0,
    ensures
        r == grid_point_above(min, max, step, n),
{
    proof {
        law_grid_point(min, max, step, n);
    }
    let point: usize = find_grid_point(min, max, step, n);
    if point < n && max - point >= step {
        point + step
    } else {
        point
    }
}

/// A grid point stands for itself.
pub proof fn law_grid_point_stays(min: usize, max: usize, step: usize, n: usize)
    requires
        min <= max,
        step > 0,
    ensures
        grid_point(min, max, step, grid_point(min, max, step, n) as usize) == grid_point(
            min,
            max,
            step,
            n,
        ),
{
    law_grid_point(min, max, step, n);
    let p = grid_point(min, max, step, n);
    let d = p - min;
    let s = step as int;
    assert((d / s) * s == d) by (nonlinear_arith)
        requires
            s > 0,
            d % s == 0,
    ;
}

impl<V: Number> ParamBounds<V> {
    /// There is a value.
    pub open spec fn wf(self) -> bool {
        match self {
            ParamBounds::Continuous { min, max, .. } => crate::number::at_most(min, max),
            ParamBounds::Discrete { min, max, step } => min <= max && step > 0,
        }
    }

    /// The least value.
    pub open spec fn low<F: Functions<V>>(self, f: &F) -> V {
        match self {
            ParamBounds::Continuous { min, .. } => min,
            ParamBounds::Discrete { min, .. } => crate::functions::count_of::<V, F>(f, min),
        }
    }

    /// The greatest value.
    pub open spec fn high<F: Functions<V>>(self, f: &F) -> V {
        match self {
            ParamBounds::Continuous { max, .. } => max,
            ParamBounds::Discrete { max, .. } => crate::functions::count_of::<V, F>(f, max),
        }
    }

    /// The value that stands for a number.
    pub open spec fn held<F: Functions<V>>(self, f: &F, value: V) -> V {
        match self {
            ParamBounds::Continuous { min, max, .. } => crate::number::clamped(value, min, max),
            ParamBounds::Discrete { min, max, step } => crate::functions::count_of::<V, F>(
                f,
                grid_point(min, max, step, crate::functions::whole_of(f, value)) as usize,
            ),
        }
    }

    /// Any number from `min` to `max`, spread evenly.
    pub fn continuous(min: V, max: V) -> (r: Self)
        ensures
            r == (ParamBounds::Continuous { min, max, log_scale: false }),
    {
        ParamBounds::Continuous { min, max, log_scale: false }
    }

    /// Any number from `min` to `max`, with the logarithm spread evenly.
    pub fn log_continuous(min: V, max: V) -> (r: Self)
        ensures
            r == (ParamBounds::Continuous { min, max, log_scale: true }),
    {
        ParamBounds::Continuous { min, max, log_scale: true }
    }

    /// The whole numbers from `min` to `max`.
    pub fn discrete(min: usize, max: usize) -> (r: Self)
        ensures
            r == (ParamBounds::<V>::Discrete { min, max, step: 1 }),
    {
        ParamBounds::Discrete { min, max, step: 1 }
    }

    /// The whole numbers from `min` to `max` in steps.
    pub fn discrete_step(min: usize, max: usize, step: usize) -> (r: Self)
        ensures
            r == (ParamBounds::<V>::Discrete { min, max, step }),
    {
        ParamBounds::Discrete { min, max, step }
    }

    /// The value that stands for a number.
    pub fn clamp<F: Functions<V>>(&self, value: V, f: &F) -> (r: V)
        requires
            crate::number::arithmetic::<V>(),
            crate::functions::computes(f),
            self.wf(),
        ensures
            r == self.held(f, value),
    {
        match self {
            ParamBounds::Continuous { min, max, .. } => clamp(value, *min, *max),
            ParamBounds::Discrete { min, max, step } => {
                let n: usize = f.whole(value);
                f.count(find_grid_point(*min, *max, *step, n))
            },
        }
    }

    /// Whether a number lies between the ends.
    pub fn contains<F: Functions<V>>(&self, value: V, f: &F) -> (r: bool)
        requires
            crate::number::arithmetic::<V>(),
            crate::functions::computes(f),
        ensures
            r == match *self {
                ParamBounds::Continuous { min, max, .. } => crate::number::at_least(value, min)
                    && crate::number::at_most(value, max),
                ParamBounds::Discrete { min, max, .. } => crate::number::at_least(
                    value,
                    crate::functions::count_of::<V, F>(f, min),
                ) && crate::number::at_most(value, crate::functions::count_of::<V, F>(f, max)),
            },
    {
        match self {
            ParamBounds::Continuous { min, max, .. } => value >= *min && value <= *max,
            ParamBounds::Discrete { min, max, .. } => {
                let low: V = f.count(*min);
                let high: V = f.count(*max);
                value >= low && value <= high
            },
        }
    }

    /// The least value.
    pub fn min_value<F: Functions<V>>(&self, f: &F) -> (r: V)
        requires
            crate::functions::computes(f),
        ensures
            r == self.low(f),
    {
        match self {
            ParamBounds::Continuous { min, .. } => *min,
            ParamBounds::Discrete { min, .. } => f.count(*min),
        }
    }

    /// The greatest value.
    pub fn max_value<F: Functions<V>>(&self, f: &F) -> (r: V)
        requires
            crate::functions::computes(f),
        ensures
            r == self.high(f),
    {
        match self {
            ParamBounds::Continuous { max, .. } => *max,
            ParamBounds::Discrete { max, .. } => f.count(*max),
        }
    }

    /// Whether the logarithm is what is spread evenly.
    pub fn is_log_scale(&self) -> (r: bool)
        ensures
            r == (*self matches ParamBounds::Continuous { log_scale, .. } && log_scale),
    {
        matches!(self, ParamBounds::Continuous { log_scale: true, .. })
    }
}

/// A continuous parameter never leaves its bounds, and a number between them
/// stands for itself.
pub proof fn law_held_within<V: Number, F: Functions<V>>(
    bounds: ParamBounds<V>,
    f: &F,
    value: V,
)
    requires
        crate::number::ordered::<V>(),
        crate::number::mirrored::<V>(),
        bounds.wf(),
        bounds is Continuous,
    ensures
        !crate::number::below(bounds.held(f, value), bounds.low(f)),
        !crate::number::above(bounds.held(f, value), bounds.high(f)),
        !crate::number::below(value, bounds.low(f)) && !crate::number::above(value, bounds.high(f))
            ==> bounds.held(f, value) == value,
{
    crate::number::law_clamped_within(value, bounds.low(f), bounds.high(f));
}

/// A parameter that is tuned.
#[derive(Debug, Clone)]
pub struct ParamDef<V> {
    /// What it is called.
    pub name: String,
    /// Which values it can take.
    pub bounds: ParamBounds<V>,
    /// The value around which is searched.
    pub center: V,
}

impl<V: Number> ParamDef<V> {
    /// A parameter; the center is brought into the bounds.
    pub fn new<F: Functions<V>>(name: &str, bounds: ParamBounds<V>, center: V, f: &F) -> (r: Self)
        requires
            crate::number::arithmetic::<V>(),
            crate::functions::computes(f),
            bounds.wf(),
        ensures
            r.name@ == name@,
            r.bounds == bounds,
            r.center == bounds.held(f, center),
    {
        let center: V = bounds.clamp(center, f);
        ParamDef { name: name.to_owned(), bounds, center }
    }

    /// Sets the center, brought into the bounds.
    pub fn set_center<F: Functions<V>>(&mut self, center: V, f: &F)
        requires
            crate::number::arithmetic::<V>(),
            crate::functions::computes(f),
            old(self).bounds.wf(),
        ensures
            *final(self) == (ParamDef { center: old(self).bounds.held(f, center), ..*old(self) }),
    {
        self.center = self.bounds.clamp(center, f);
    }
}

/// The parameters that are tuned.
#[derive(Debug, Clone)]
pub struct ParameterSpace<V> {
    /// The parameters, in order.
    pub params: Vec<ParamDef<V>>,
}

/// Parameter `i` is the first of that name.
pub open spec fn first_named<V>(params: Seq<ParamDef<V>>, name: Seq<char>, i: int) -> bool {
    &&& 0 <= i < params.len()
    &&& params[i].name@ == name
    &&& forall|k: int| 0 <= k < i ==> (#[trigger] params[k]).name@ != name
}

/// No parameter has that name.
pub open spec fn unnamed<V>(params: Seq<ParamDef<V>>, name: Seq<char>) -> bool {
    forall|k: int| 0 <= k < params.len() ==> (#[trigger] params[k]).name@ != name
}

/// The parameters of another name.
pub open spec fn others<V>(params: Seq<ParamDef<V>>, name: Seq<char>) -> Seq<ParamDef<V>> {
    params.filter(|p: ParamDef<V>| p.name@ != name)
}

/// No two parameters have the same name.
pub open spec fn all_differ<V>(params: Seq<ParamDef<V>>) -> bool {
    forall|i: int, j: int|
        0 <= i < j < params.len() ==> (#[trigger] params[i]).name@ != (#[trigger] params[j]).name@
}

/// The centers by name; of two parameters of one name the later counts.
pub open spec fn centers_of<V>(params: Seq<ParamDef<V>>) -> Map<Seq<char>, V>
    decreases params.len(),
{
    if params.len() == 0 {
        Map::empty()
    } else {
        centers_of(params.drop_last()).insert(params.last().name@, params.last().center)
    }
}

/// A parameter with the center that is given for its name, if there is one.
pub open spec fn recentered<V: Number, F: Functions<V>>(
    p: ParamDef<V>,
    centers: Map<Seq<char>, V>,
    f: &F,
) -> ParamDef<V> {
    if centers.contains_key(p.name@) {
        ParamDef { center: p.bounds.held(f, centers[p.name@]), ..p }
    } else {
        p
    }
}

/// The names that a parameter can have.
pub open spec fn valid_names() -> Seq<Seq<char>> {
    seq![
        "max_depth"@,
        "learning_rate"@,
        "subsample"@,
        "colsample"@,
        "lambda"@,
        "entropy_weight"@,
        "min_samples_leaf"@,
        "min_hessian_leaf"@,
        "min_gain"@,
        "num_rounds"@,
        "goss_top_rate"@,
        "goss_other_rate"@,
    ]
}

/// The complaint about a name that a parameter cannot have.
pub open spec fn unknown_parameter(name: Seq<char>) -> Seq<char> {
    "Unknown parameter '"@ + name
        + "'. Valid parameters: [\"max_depth\", \"learning_rate\", \"subsample\", \"colsample\", \"lambda\", \"entropy_weight\", \"min_samples_leaf\", \"min_hessian_leaf\", \"min_gain\", \"num_rounds\", \"goss_top_rate\", \"goss_other_rate\"]"@
}

/// Whether a parameter can have that name.
fn is_valid_name(name: &str) -> (r: bool)
    ensures
        r == valid_names().contains(name@),
{
    let ghost all = valid_names();
    if same_text(name, "max_depth") {
        assert(all[0] == name@);
        return true;
    }
    if same_text(name, "learning_rate") {
        assert(all[1] == name@);
        return true;
    }
    if same_text(name, "subsample") {
        assert(all[2] == name@);
        return true;
    }
    if same_text(name, "colsample") {
        assert(all[3] == name@);
        return true;
    }
    if same_text(name, "lambda") {
        assert(all[4] == name@);
        return true;
    }
    if same_text(name, "entropy_weight") {
        assert(all[5] == name@);
        return true;
    }
    if same_text(name, "min_samples_leaf") {
        assert(all[6] == name@);
        return true;
    }
    if same_text(name, "min_hessian_leaf") {
        assert(all[7] == name@);
        return true;
    }
    if same_text(name, "min_gain") {
        assert(all[8] == name@);
        return true;
    }
    if same_text(name, "num_rounds") {
        assert(all[9] == name@);
        return true;
    }
    if same_text(name, "goss_top_rate") {
        assert(all[10] == name@);
        return true;
    }
    if same_text(name, "goss_other_rate") {
        assert(all[11] == name@);
        return true;
    }
    false
}

/// The parameters that are usual for a regression.
pub open spec fn is_regression<V: Number, F: Functions<V>>(f: &F, space: ParameterSpace<V>) -> bool {
    &&& space.params@.len() == 5
    &&& is_param(
        space.params@[0],
        f,
        "max_depth"@,
        (ParamBounds::Discrete { min: 2, max: 12, step: 1 }),
        crate::number::small::<V>(6),
    )
    &&& is_param(
        space.params@[1],
        f,
        "learning_rate"@,
        (ParamBounds::Continuous {
            min: crate::number::ratio::<V>(1, 100),
            max: crate::number::ratio::<V>(1, 2),
            log_scale: true,
        }),
        crate::number::ratio::<V>(1, 10),
    )
    &&& is_param(
        space.params@[2],
        f,
        "subsample"@,
        (ParamBounds::Continuous {
            min: crate::number::ratio::<V>(1, 2),
            max: crate::number::small::<V>(1),
            log_scale: false,
        }),
        crate::number::ratio::<V>(8, 10),
    )
    &&& is_param(
        space.params@[3],
        f,
        "lambda"@,
        (ParamBounds::Continuous {
            min: crate::number::small::<V>(0),
            max: crate::number::small::<V>(10),
            log_scale: false,
        }),
        crate::number::small::<V>(1),
    )
    &&& is_param(
        space.params@[4],
        f,
        "entropy_weight"@,
        (ParamBounds::Continuous {
            min: crate::number::small::<V>(0),
            max: crate::number::ratio::<V>(1, 2),
            log_scale: false,
        }),
        crate::number::small::<V>(0),
    )
}

impl<V: Number> ParameterSpace<V> {
    /// Every parameter can take a value.
    pub open spec fn wf(self) -> bool {
        forall|i: int| 0 <= i < self.params@.len() ==> (#[trigger] self.params@[i]).bounds.wf()
    }

    /// The names of the parameters.
    pub open spec fn names(self) -> Seq<Seq<char>> {
        Seq::new(self.params@.len(), |i: int| self.params@[i].name@)
    }

    /// No two parameters have the same name.
    pub open spec fn names_differ(self) -> bool {
        all_differ(self.params@)
    }

    /// The first parameter with a name that a parameter cannot have.
    pub open spec fn first_invalid(self, i: int) -> bool {
        &&& 0 <= i < self.params@.len()
        &&& !valid_names().contains(self.params@[i].name@)
        &&& forall|k: int|
            0 <= k < i ==> valid_names().contains((#[trigger] self.params@[k]).name@)
    }

    /// All parameters have names that a parameter can have.
    pub open spec fn all_valid(self) -> bool {
        forall|k: int|
            0 <= k < self.params@.len() ==> valid_names().contains(
                (#[trigger] self.params@[k]).name@,
            )
    }

    /// No parameters.
    pub fn new() -> (r: Self)
        ensures
            r.params@.len() == 0,
            r.wf(),
            r.names_differ(),
    {
        ParameterSpace { params: Vec::new() }
    }

    /// Removes the parameters of a name.
    pub fn without_param(self, name: &str) -> (r: Self)
        ensures
            r.params@ == others(self.params@, name@),
            unnamed(r.params@, name@),
            self.wf() ==> r.wf(),
            self.names_differ() ==> r.names_differ(),
    {
        let ghost all = self.params@;
        let ghost keep = |p: ParamDef<V>| p.name@ != name@;
        let mut params = self.params;
        let ghost mut seen: int = 0;
        let mut i: usize = 0;
        proof {
            reveal(Seq::filter);
            assert(all.take(0) =~= Seq::empty());
            assert(params@ =~= all.take(0).filter(keep) + all.skip(0));
        }
        while i < params.len()
            invariant
                keep == (|p: ParamDef<V>| p.name@ != name@),
                0 <= seen <= all.len(),
                i == all.take(seen).filter(keep).len(),
                params@ == all.take(seen).filter(keep) + all.skip(seen),
            decreases all.len() - seen,
        {
            proof {
                reveal(Seq::filter);
                assert(seen < all.len());
                assert(params@[i as int] == all[seen]);
                assert(all.take(seen + 1).drop_last() =~= all.take(seen));
                assert(all.take(seen + 1).last() == all[seen]);
                assert(all.skip(seen).drop_first() =~= all.skip(seen + 1));
            }
            if same_text(params[i].name.as_str(), name) {
                let ghost before = params@;
                params.remove(i);
                assert(params@ =~= all.take(seen + 1).filter(keep) + all.skip(seen + 1));
            } else {
                i = i + 1;
                assert(params@ =~= all.take(seen + 1).filter(keep) + all.skip(seen + 1));
            }
            proof {
                seen = seen + 1;
            }
        }
        proof {
            assert(all.skip(seen).len() == 0);
            assert(all.take(seen) =~= all);
            assert(params@ =~= all.filter(keep));
            if self.names_differ() {
                lemma_filter_differs(all, keep);
            }
            assert forall|k: int| 0 <= k < params@.len() implies (#[trigger] params@[k]).name@
                != name@ by {
                lemma_filtered(all, keep, k);
            }
            if self.wf() {
                assert forall|k: int| 0 <= k < params@.len() implies (
                #[trigger] params@[k]).bounds.wf() by {
                    lemma_filtered(all, keep, k);
                }
            }
        }
        ParameterSpace { params }
    }

    /// Adds a parameter in place of those of the same name.
    pub fn with_param<F: Functions<V>>(
        self,
        name: &str,
        bounds: ParamBounds<V>,
        center: V,
        f: &F,
    ) -> (r: Self)
        requires
            crate::number::arithmetic::<V>(),
            crate::functions::computes(f),
            bounds.wf(),
        ensures
            r.params@.len() > 0,
            r.params@.drop_last() == others(self.params@, name@),
            r.params@.last().name@ == name@,
            r.params@.last().bounds == bounds,
            r.params@.last().center == bounds.held(f, center),
            self.wf() ==> r.wf(),
            self.names_differ() ==> r.names_differ(),
    {
        let mut space = self.without_param(name);
        let ghost kept = space.params@;
        space.params.push(ParamDef::new(name, bounds, center, f));
        assert(space.params@.drop_last() =~= kept);
        space
    }

    /// The first parameter of a name.
    pub fn get(&self, name: &str) -> (r: Option<&ParamDef<V>>)
        ensures
            match r {
                Some(p) => exists|i: int| #[trigger]
                    first_named(self.params@, name@, i) && *p == self.params@[i],
                None => unnamed(self.params@, name@),
            },
    {
        let mut i: usize = 0;
        while i < self.params.len()
            invariant
                i <= self.params.len(),
                forall|k: int| 0 <= k < i ==> (#[trigger] self.params@[k]).name@ != name@,
            decreases self.params.len() - i,
        {
            if same_text(self.params[i].name.as_str(), name) {
                assert(first_named(self.params@, name@, i as int));
                return Some(&self.params[i]);
            }
            i = i + 1;
        }
        None
    }

    /// The first parameter of a name, to be changed.
    pub fn get_mut(&mut self, name: &str) -> (r: Option<&mut ParamDef<V>>)
        ensures
            match r {
                Some(p) => exists|i: int|
                    {
                        &&& #[trigger] first_named(old(self).params@, name@, i)
                        &&& *p == old(self).params@[i]
                        &&& final(self).params@ == old(self).params@.update(i, *final(p))
                    },
                None => unnamed(old(self).params@, name@) && *final(self) == *old(self),
            },
    {
        let mut i: usize = 0;
        while i < self.params.len()
            invariant
                *self == *old(self),
                i <= self.params.len(),
                forall|k: int| 0 <= k < i ==> (#[trigger] self.params@[k]).name@ != name@,
            decreases self.params.len() - i,
        {
            if same_text(self.params[i].name.as_str(), name) {
                assert(first_named(self.params@, name@, i as int));
                return Some(&mut self.params[i]);
            }
            i = i + 1;
        }
        None
    }

    /// The parameters.
    pub fn params(&self) -> (r: &[ParamDef<V>])
        ensures
            r@ == self.params@,
    {
        self.params.as_slice()
    }

    /// How many parameters there are.
    pub fn len(&self) -> (r: usize)
        ensures
            r == self.params@.len(),
    {
        self.params.len()
    }

    /// Whether there are no parameters.
    pub fn is_empty(&self) -> (r: bool)
        ensures
            r == (self.params@.len() == 0),
    {
        self.params.len() == 0
    }

    /// The centers by name.
    pub fn centers(&self) -> (r: TextMap<V>)
        ensures
            r@ == centers_of(self.params@),
    {
        let mut map: TextMap<V> = TextMap::new();
        let mut i: usize = 0;
        assert(self.params@.take(0) =~= Seq::empty());
        while i < self.params.len()
            invariant
                i <= self.params.len(),
                map@ == centers_of(self.params@.take(i as int)),
            decreases self.params.len() - i,
        {
            proof {
                assert(self.params@.take(i + 1).drop_last() =~= self.params@.take(i as int));
            }
            map.insert(self.params[i].name.as_str(), self.params[i].center);
            i = i + 1;
        }
        assert(self.params@.take(i as int) =~= self.params@);
        map
    }

    /// Sets the centers that are given, each brought into the bounds.
    pub fn set_centers<F: Functions<V>>(&mut self, centers: &TextMap<V>, f: &F)
        requires
            crate::number::arithmetic::<V>(),
            crate::functions::computes(f),
            old(self).wf(),
        ensures
            final(self).params@ == Seq::new(
                old(self).params@.len(),
                |i: int| recentered(old(self).params@[i], centers@, f),
            ),
            final(self).wf(),
            old(self).names_differ() ==> final(self).names_differ(),
    {
        let ghost before = self.params@;
        let mut i: usize = 0;
        while i < self.params.len()
            invariant
                crate::number::arithmetic::<V>(),
                crate::functions::computes(f),
                before == old(self).params@,
                old(self).wf(),
                self.params@.len() == before.len(),
                i <= before.len(),
                forall|k: int|
                    0 <= k < i ==> #[trigger] self.params@[k] == recentered(
                        before[k],
                        centers@,
                        f,
                    ),
                forall|k: int| i <= k < before.len() ==> #[trigger] self.params@[k] == before[k],
            decreases before.len() - i,
        {
            assert(self.params@[i as int] == before[i as int]);
            let given: Option<V> = match centers.get(self.params[i].name.as_str()) {
                Some(c) => Some(*c),
                None => None,
            };
            if let Some(c) = given {
                self.params[i].set_center(c, f);
            }
            i = i + 1;
        }
        assert(self.params@ =~= Seq::new(
            before.len(),
            |i: int| recentered(before[i], centers@, f),
        ));
    }

    /// Checks the names of the parameters.
    pub fn validate(&self) -> (r: core::result::Result<(), String>)
        ensures
            match r {
                Ok(_) => self.all_valid(),
                Err(e) => exists|i: int| #[trigger]
                    self.first_invalid(i) && e@ == unknown_parameter(self.params@[i].name@),
            },
    {
        let mut i: usize = 0;
        while i < self.params.len()
            invariant
                i <= self.params.len(),
                forall|k: int|
                    0 <= k < i ==> valid_names().contains((#[trigger] self.params@[k]).name@),
            decreases self.params.len() - i,
        {
            let name: &str = self.params[i].name.as_str();
            if !is_valid_name(name) {
                assert(self.first_invalid(i as int));
                return Err(
                    join3(
                        "Unknown parameter '",
                        name,
                        "'. Valid parameters: [\"max_depth\", \"learning_rate\", \"subsample\", \"colsample\", \"lambda\", \"entropy_weight\", \"min_samples_leaf\", \"min_hessian_leaf\", \"min_gain\", \"num_rounds\", \"goss_top_rate\", \"goss_other_rate\"]",
                    ),
                );
            }
            i = i + 1;
        }
        Ok(())
    }
}

/// A parameter is what a name, bounds and a center give.
pub open spec fn is_param<V: Number, F: Functions<V>>(
    p: ParamDef<V>,
    f: &F,
    name: Seq<char>,
    bounds: ParamBounds<V>,
    center: V,
) -> bool {
    p.name@ == name && p.bounds == bounds && p.center == bounds.held(f, center)
}

impl<V: Number> ParameterSpace<V> {
    /// The usual parameters of a regression.
    pub fn default_regression<F: Functions<V>>(f: &F) -> (r: Self)
        requires
            crate::number::arithmetic::<V>(),
            crate::number::graded::<V>(),
            crate::functions::computes(f),
        ensures
            r.wf(),
            r.names_differ(),
            r.all_valid(),
            is_regression(f, r),
    {
        proof {
            assert(crate::number::at_most(
                crate::number::small::<V>(0),
                crate::number::small::<V>(10),
            ));
            assert(crate::number::at_most(
                crate::number::small::<V>(0),
                crate::number::ratio::<V>(1, 2),
            ));
        }
        let mut params: Vec<ParamDef<V>> = Vec::new();
        params.push(
            ParamDef::new("max_depth", ParamBounds::discrete(2, 12), V::from(6u8), f),
        );
        params.push(
            ParamDef::new("learning_rate", ParamBounds::log_continuous(ratio_number(1, 100), ratio_number(1, 2)), ratio_number(1, 10), f),
        );
        params.push(
            ParamDef::new("subsample", ParamBounds::continuous(ratio_number(1, 2), V::from(1u8)), ratio_number(8, 10), f),
        );
        params.push(
            ParamDef::new("lambda", ParamBounds::continuous(V::from(0u8), V::from(10u8)), V::from(1u8), f),
        );
        params.push(
            ParamDef::new("entropy_weight", ParamBounds::continuous(V::from(0u8), ratio_number(1, 2)), V::from(0u8), f),
        );
        let r = ParameterSpace { params };
        proof {
            lemma_valid_names_differ();
            let all = valid_names();
            assert(all[0] == r.params@[0].name@);
            assert(all[1] == r.params@[1].name@);
            assert(all[2] == r.params@[2].name@);
            assert(all[4] == r.params@[3].name@);
            assert(all[5] == r.params@[4].name@);
        }
        r
    }

    /// The usual parameters of a classification.
    pub fn default_classification<F: Functions<V>>(f: &F) -> (r: Self)
        requires
            crate::number::arithmetic::<V>(),
            crate::number::graded::<V>(),
            crate::functions::computes(f),
        ensures
            r.wf(),
            r.names_differ(),
            r.all_valid(),
            r.params@.len() == 5,
            is_param(
                r.params@[0],
                f,
                "max_depth"@,
                (ParamBounds::Discrete { min: 2, max: 10, step: 1 }),
                crate::number::small::<V>(5),
            ),
            is_param(
                r.params@[1],
                f,
                "learning_rate"@,
                (ParamBounds::Continuous {
                    min: crate::number::ratio::<V>(1, 100),
                    max: crate::number::ratio::<V>(3, 10),
                    log_scale: true,
                }),
                crate::number::ratio::<V>(1, 10),
            ),
            is_param(
                r.params@[2],
                f,
                "subsample"@,
                (ParamBounds::Continuous {
                    min: crate::number::ratio::<V>(6, 10),
                    max: crate::number::small::<V>(1),
                    log_scale: false,
                }),
                crate::number::ratio::<V>(8, 10),
            ),
            is_param(
                r.params@[3],
                f,
                "lambda"@,
                (ParamBounds::Continuous {
                    min: crate::number::small::<V>(0),
                    max: crate::number::small::<V>(5),
                    log_scale: false,
                }),
                crate::number::small::<V>(1),
            ),
            is_param(
                r.params@[4],
                f,
                "entropy_weight"@,
                (ParamBounds::Continuous {
                    min: crate::number::small::<V>(0),
                    max: crate::number::ratio::<V>(3, 10),
                    log_scale: false,
                }),
                crate::number::small::<V>(0),
            ),
    {
        let mut params: Vec<ParamDef<V>> = Vec::new();
        params.push(
            ParamDef::new("max_depth", ParamBounds::discrete(2, 10), V::from(5u8), f),
        );
        params.push(
            ParamDef::new("learning_rate", ParamBounds::log_continuous(ratio_number(1, 100), ratio_number(3, 10)), ratio_number(1, 10), f),
        );
        params.push(
            ParamDef::new("subsample", ParamBounds::continuous(ratio_number(6, 10), V::from(1u8)), ratio_number(8, 10), f),
        );
        params.push(
            ParamDef::new("lambda", ParamBounds::continuous(V::from(0u8), V::from(5u8)), V::from(1u8), f),
        );
        params.push(
            ParamDef::new("entropy_weight", ParamBounds::continuous(V::from(0u8), ratio_number(3, 10)), V::from(0u8), f),
        );
        let r = ParameterSpace { params };
        proof {
            lemma_valid_names_differ();
            let all = valid_names();
            assert(all[0] == r.params@[0].name@);
            assert(all[1] == r.params@[1].name@);
            assert(all[2] == r.params@[2].name@);
            assert(all[4] == r.params@[3].name@);
            assert(all[5] == r.params@[4].name@);
        }
        r
    }

    /// The depth and the learning rate alone.
    pub fn minimal<F: Functions<V>>(f: &F) -> (r: Self)
        requires
            crate::number::arithmetic::<V>(),
            crate::number::graded::<V>(),
            crate::functions::computes(f),
        ensures
            r.wf(),
            r.names_differ(),
            r.all_valid(),
            r.params@.len() == 2,
            is_param(
                r.params@[0],
                f,
                "max_depth"@,
                (ParamBounds::Discrete { min: 3, max: 10, step: 1 }),
                crate::number::small::<V>(6),
            ),
            is_param(
                r.params@[1],
                f,
                "learning_rate"@,
                (ParamBounds::Continuous {
                    min: crate::number::ratio::<V>(1, 100),
                    max: crate::number::ratio::<V>(3, 10),
                    log_scale: true,
                }),
                crate::number::ratio::<V>(1, 10),
            ),
    {
        let mut params: Vec<ParamDef<V>> = Vec::new();
        params.push(
            ParamDef::new("max_depth", ParamBounds::discrete(3, 10), V::from(6u8), f),
        );
        params.push(
            ParamDef::new("learning_rate", ParamBounds::log_continuous(ratio_number(1, 100), ratio_number(3, 10)), ratio_number(1, 10), f),
        );
        let r = ParameterSpace { params };
        proof {
            lemma_valid_names_differ();
            let all = valid_names();
            assert(all[0] == r.params@[0].name@);
            assert(all[1] == r.params@[1].name@);
        }
        r
    }
}

/// The names that a parameter can have differ.
proof fn lemma_valid_names_differ()
    ensures
        forall|i: int, j: int|
            0 <= i < j < valid_names().len() ==> #[trigger] valid_names()[i]
                != #[trigger] valid_names()[j],
{
    reveal_strlit("max_depth");
    reveal_strlit("learning_rate");
    reveal_strlit("subsample");
    reveal_strlit("colsample");
    reveal_strlit("lambda");
    reveal_strlit("entropy_weight");
    reveal_strlit("min_samples_leaf");
    reveal_strlit("min_hessian_leaf");
    reveal_strlit("min_gain");
    reveal_strlit("num_rounds");
    reveal_strlit("goss_top_rate");
    reveal_strlit("goss_other_rate");
    let all = valid_names();
    assert(all[2][0] == 's' && all[0][0] == 'm' && all[3][0] == 'c');
    assert(all[6][4] == 's' && all[7][4] == 'h');
    assert(all[1][0] == 'l' && all[10][0] == 'g');
    assert forall|i: int, j: int| 0 <= i < j < all.len() implies #[trigger] all[i]
        != #[trigger] all[j] by {
        assert(all[i].len() != all[j].len() || all[i][0] != all[j][0] || all[i][4] != all[j][4]);
    }
}

/// A filter keeps names apart.
proof fn lemma_filter_differs<V>(list: Seq<ParamDef<V>>, keep: spec_fn(ParamDef<V>) -> bool)
    requires
        all_differ(list),
    ensures
        all_differ(list.filter(keep)),
    decreases list.len(),
{
    reveal(Seq::filter);
    if list.len() > 0 {
        let rest = list.drop_last();
        assert forall|i: int, j: int| 0 <= i < j < rest.len() implies (#[trigger] rest[i]).name@
            != (#[trigger] rest[j]).name@ by {
            assert(rest[i] == list[i] && rest[j] == list[j]);
        }
        lemma_filter_differs(rest, keep);
        let kept = rest.filter(keep);
        let now = list.filter(keep);
        assert forall|i: int, j: int| 0 <= i < j < now.len() implies (#[trigger] now[i]).name@
            != (#[trigger] now[j]).name@ by {
            if j < kept.len() {
                assert(now[i] == kept[i] && now[j] == kept[j]);
            } else {
                assert(now[i] == kept[i]);
                lemma_filtered(rest, keep, i);
                let k = choose|k: int| 0 <= k < rest.len() && rest[k] == kept[i];
                assert(list[k] == kept[i]);
                assert(now[j] == list[list.len() - 1]);
            }
        }
    }
}

/// What a filter lets through is in the list and passes.
proof fn lemma_filtered<A>(list: Seq<A>, keep: spec_fn(A) -> bool, k: int)
    requires
        0 <= k < list.filter(keep).len(),
    ensures
        keep(list.filter(keep)[k]),
        list.contains(list.filter(keep)[k]),
    decreases list.len(),
{
    reveal(Seq::filter);
    if list.len() > 0 {
        let rest = list.drop_last();
        if k < rest.filter(keep).len() {
            lemma_filtered(rest, keep, k);
            let x = rest.filter(keep)[k];
            let i = choose|i: int| 0 <= i < rest.len() && rest[i] == x;
            assert(list[i] == x);
            assert(list.filter(keep)[k] == x);
        } else {
            assert(list[list.len() - 1] == list.filter(keep)[k]);
        }
    }
}

/// The centers by name are those of the parameters: where no name occurs twice,
/// each name has the center of its parameter, and there are no other names.
pub proof fn law_centers_by_name<V>(params: Seq<ParamDef<V>>, i: int, name: Seq<char>)
    requires
        all_differ(params),
        0 <= i < params.len(),
    ensures
        centers_of(params).contains_key(params[i].name@),
        centers_of(params)[params[i].name@] == params[i].center,
        centers_of(params).contains_key(name) <==> exists|k: int|
            0 <= k < params.len() && (#[trigger] params[k]).name@ == name,
{
    lemma_centers(params, name);
    lemma_centers(params, params[i].name@);
    assert(params[i].name@ == params[i].name@);
    let k = choose|k: int| {
        &&& 0 <= k < params.len()
        &&& (#[trigger] params[k]).name@ == params[i].name@
        &&& centers_of(params)[params[i].name@] == params[k].center
    };
    assert(k == i);
}

proof fn lemma_centers<V>(params: Seq<ParamDef<V>>, name: Seq<char>)
    ensures
        centers_of(params).contains_key(name) <==> exists|k: int|
            0 <= k < params.len() && (#[trigger] params[k]).name@ == name,
        centers_of(params).contains_key(name) ==> exists|k: int|
            {
                &&& 0 <= k < params.len()
                &&& (#[trigger] params[k]).name@ == name
                &&& centers_of(params)[name] == params[k].center
            },
    decreases params.len(),
{
    if params.len() > 0 {
        let fewer = params.drop_last();
        let last = params.len() - 1;
        lemma_centers(fewer, name);
        assert(params[last] == params.last());
        assert forall|k: int| 0 <= k < fewer.len() implies params[k] == #[trigger] fewer[k] by {}
        if params.last().name@ != name && centers_of(fewer).contains_key(name) {
            let k = choose|k: int|
                {
                    &&& 0 <= k < fewer.len()
                    &&& (#[trigger] fewer[k]).name@ == name
                    &&& centers_of(fewer)[name] == fewer[k].center
                };
            assert(params[k].name@ == name);
        } else if params.last().name@ != name {
            assert forall|k: int| 0 <= k < params.len() implies (#[trigger] params[k]).name@
                != name by {
                if k < last {
                    assert(fewer[k].name@ != name);
                }
            }
        }
    }
}

/// Moving parameters to their own centers leaves them as they are, where these lie
/// on their grids.
pub proof fn law_own_centers_change_nothing<V: Number, F: Functions<V>>(
    f: &F,
    params: Seq<ParamDef<V>>,
    i: int,
)
    requires
        all_differ(params),
        0 <= i < params.len(),
        params[i].bounds.held(f, params[i].center) == params[i].center,
    ensures
        recentered(params[i], centers_of(params), f) == params[i],
{
    law_centers_by_name(params, i, params[i].name@);
}

} // verus!
