//! The functions on numbers that are no operators.

use vstd::prelude::*;

verus! {

/// Functions on numbers of type `V` that the library needs beside the
/// operators. Whoever uses the library with a type of numbers says how they are
/// computed.
pub trait Functions<V> {
    /// The number `n`.
    fn count(&self, n: usize) -> V;

    /// The whole part of `v`.
    fn whole(&self, v: V) -> usize;

    /// The nearest whole number.
    fn round(&self, v: V) -> V;

    /// The least whole number at `v` or above.
    fn ceil(&self, v: V) -> V;

    /// The square root.
    fn root(&self, v: V) -> V;

    /// The natural logarithm.
    fn ln(&self, v: V) -> V;

    /// The logarithm to base two.
    fn log2(&self, v: V) -> V;

    /// The exponential function.
    fn exp(&self, v: V) -> V;

    /// `base` to the power of `exponent`.
    fn pow(&self, base: V, exponent: V) -> V;

    /// `base` to the power of a whole number.
    fn powi(&self, base: V, exponent: i32) -> V;

    /// The number of hundredths nearest to `v`.
    fn hundredths(&self, v: V) -> i64;

    /// The lower quartile, the median and the upper quartile of a list.
    fn quartiles(&self, list: &[V]) -> (V, V, V);

    /// `v` as text.
    fn show(&self, v: V) -> String;

    /// `v` as text, with so many digits behind the point.
    fn fixed(&self, v: V, digits: usize) -> String;

    /// The largest number that is not infinite.
    fn largest(&self) -> V;
}

/// What [`Functions::count`] gives.
pub open spec fn count_of<V, F: Functions<V>>(f: &F, n: usize) -> V {
    choose|r: V| call_ensures(<F as Functions<V>>::count, (f, n), r)
}

/// What [`Functions::whole`] gives.
pub open spec fn whole_of<V, F: Functions<V>>(f: &F, v: V) -> usize {
    choose|r: usize| call_ensures(<F as Functions<V>>::whole, (f, v), r)
}

/// What [`Functions::round`] gives.
pub open spec fn round_of<V, F: Functions<V>>(f: &F, v: V) -> V {
    choose|r: V| call_ensures(<F as Functions<V>>::round, (f, v), r)
}

/// What [`Functions::ceil`] gives.
pub open spec fn ceil_of<V, F: Functions<V>>(f: &F, v: V) -> V {
    choose|r: V| call_ensures(<F as Functions<V>>::ceil, (f, v), r)
}

/// What [`Functions::root`] gives.
pub open spec fn root_of<V, F: Functions<V>>(f: &F, v: V) -> V {
    choose|r: V| call_ensures(<F as Functions<V>>::root, (f, v), r)
}

/// What [`Functions::ln`] gives.
pub open spec fn ln_of<V, F: Functions<V>>(f: &F, v: V) -> V {
    choose|r: V| call_ensures(<F as Functions<V>>::ln, (f, v), r)
}

/// What [`Functions::log2`] gives.
pub open spec fn log2_of<V, F: Functions<V>>(f: &F, v: V) -> V {
    choose|r: V| call_ensures(<F as Functions<V>>::log2, (f, v), r)
}

/// What [`Functions::exp`] gives.
pub open spec fn exp_of<V, F: Functions<V>>(f: &F, v: V) -> V {
    choose|r: V| call_ensures(<F as Functions<V>>::exp, (f, v), r)
}

/// What [`Functions::pow`] gives.
pub open spec fn pow_of<V, F: Functions<V>>(f: &F, base: V, exponent: V) -> V {
    choose|r: V| call_ensures(<F as Functions<V>>::pow, (f, base, exponent), r)
}

/// What [`Functions::powi`] gives.
pub open spec fn powi_of<V, F: Functions<V>>(f: &F, base: V, exponent: i32) -> V {
    choose|r: V| call_ensures(<F as Functions<V>>::powi, (f, base, exponent), r)
}

/// What [`Functions::hundredths`] gives.
pub open spec fn hundredths_of<V, F: Functions<V>>(f: &F, v: V) -> i64 {
    choose|r: i64| call_ensures(<F as Functions<V>>::hundredths, (f, v), r)
}

/// `r` may be what [`Functions::quartiles`] gives for a list.
pub open spec fn may_be_quartiles<V, F: Functions<V>>(f: &F, list: Seq<V>, r: (V, V, V)) -> bool {
    exists|slice: &[V]|
        slice@ == list && #[trigger] call_ensures(
            <F as Functions<V>>::quartiles,
            (f, slice),
            r,
        )
}

/// What [`Functions::quartiles`] gives.
pub open spec fn quartiles_of<V, F: Functions<V>>(f: &F, list: Seq<V>) -> (V, V, V) {
    choose|r: (V, V, V)| may_be_quartiles(f, list, r)
}

/// `r` may be what [`Functions::show`] gives.
pub open spec fn may_be_shown<V, F: Functions<V>>(f: &F, v: V, r: Seq<char>) -> bool {
    exists|s: String|
        s@ == r && #[trigger] call_ensures(<F as Functions<V>>::show, (f, v), s)
}

/// What [`Functions::show`] gives.
pub open spec fn shown<V, F: Functions<V>>(f: &F, v: V) -> Seq<char> {
    choose|r: Seq<char>| may_be_shown(f, v, r)
}

/// `r` may be what [`Functions::fixed`] gives.
pub open spec fn may_be_fixed<V, F: Functions<V>>(f: &F, v: V, digits: usize, r: Seq<char>) -> bool {
    exists|s: String|
        s@ == r && #[trigger] call_ensures(<F as Functions<V>>::fixed, (f, v, digits), s)
}

/// What [`Functions::fixed`] gives.
pub open spec fn fixed_text<V, F: Functions<V>>(f: &F, v: V, digits: usize) -> Seq<char> {
    choose|r: Seq<char>| may_be_fixed(f, v, digits, r)
}

/// What [`Functions::largest`] gives.
pub open spec fn largest_of<V, F: Functions<V>>(f: &F) -> V {
    choose|r: V| call_ensures(<F as Functions<V>>::largest, (f,), r)
}

/// What the functions give is determined by their arguments.
pub open spec fn computes<V, F: Functions<V>>(f: &F) -> bool {
    &&& forall|n: usize, r: V| #[trigger]
        call_ensures(<F as Functions<V>>::count, (f, n), r) ==> r == count_of::<V, F>(f, n)
    &&& forall|v: V, r: usize| #[trigger]
        call_ensures(<F as Functions<V>>::whole, (f, v), r) ==> r == whole_of(f, v)
    &&& forall|v: V, r: V| #[trigger]
        call_ensures(<F as Functions<V>>::round, (f, v), r) ==> r == round_of(f, v)
    &&& forall|v: V, r: V| #[trigger]
        call_ensures(<F as Functions<V>>::ceil, (f, v), r) ==> r == ceil_of(f, v)
    &&& forall|v: V, r: V| #[trigger]
        call_ensures(<F as Functions<V>>::root, (f, v), r) ==> r == root_of(f, v)
    &&& forall|v: V, r: V| #[trigger]
        call_ensures(<F as Functions<V>>::ln, (f, v), r) ==> r == ln_of(f, v)
    &&& forall|v: V, r: V| #[trigger]
        call_ensures(<F as Functions<V>>::log2, (f, v), r) ==> r == log2_of(f, v)
    &&& forall|v: V, r: V| #[trigger]
        call_ensures(<F as Functions<V>>::exp, (f, v), r) ==> r == exp_of(f, v)
    &&& forall|a: V, b: V, r: V| #[trigger]
        call_ensures(<F as Functions<V>>::pow, (f, a, b), r) ==> r == pow_of(f, a, b)
    &&& forall|a: V, n: i32, r: V| #[trigger]
        call_ensures(<F as Functions<V>>::powi, (f, a, n), r) ==> r == powi_of(f, a, n)
    &&& forall|v: V, r: i64| #[trigger]
        call_ensures(<F as Functions<V>>::hundredths, (f, v), r) ==> r == hundredths_of(f, v)
    &&& forall|list: Seq<V>, r: (V, V, V)| #[trigger]
        may_be_quartiles(f, list, r) ==> r == quartiles_of(f, list)
    &&& forall|v: V, r: Seq<char>| #[trigger] may_be_shown(f, v, r) ==> r == shown(f, v)
    &&& forall|v: V, d: usize, r: Seq<char>| #[trigger]
        may_be_fixed(f, v, d, r) ==> r == fixed_text(f, v, d)
    &&& forall|r: V| #[trigger]
        call_ensures(<F as Functions<V>>::largest, (f,), r) ==> r == largest_of::<V, F>(f)
}

/// Writes a number; see [`Functions::show`].
pub fn show_number<V: Copy, F: Functions<V>>(f: &F, v: V) -> (r: String)
    requires
        computes(f),
    ensures
        r@ == shown(f, v),
{
    let s = f.show(v);
    assert(may_be_shown(f, v, s@));
    s
}

/// Writes a number with so many digits behind the point; see
/// [`Functions::fixed`].
pub fn show_fixed<V: Copy, F: Functions<V>>(f: &F, v: V, digits: usize) -> (r: String)
    requires
        computes(f),
    ensures
        r@ == fixed_text(f, v, digits),
{
    let s = f.fixed(v, digits);
    assert(may_be_fixed(f, v, digits, s@));
    s
}

} // verus!
