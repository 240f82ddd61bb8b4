//! Numbers as the library sees them: any type with the operators of the
//! standard library, such as the floating-point types.
//!
//! Contracts name the operators by [`plus`], [`minus`] and so on. They say
//! nothing of rounding: they say which operations are carried out, on which
//! operands, and what is decided by their results.

use core::ops::{Add, Div, Mul, Neg, Sub};
use vstd::prelude::*;
use vstd::std_specs::cmp::{PartialEqSpec, PartialOrdIs, PartialOrdSpec};
use vstd::std_specs::convert::FromSpec;
use vstd::std_specs::ops::{AddSpec, DivSpec, MulSpec, NegSpec, SubSpec};

verus! {

/// A type of numbers.
pub trait Number: Copy + PartialOrd + Add<Output = Self> + Sub<Output = Self> + Mul<
    Output = Self,
> + Div<Output = Self> + Neg<Output = Self> + From<u8> {

}

impl<V> Number for V where
    V: Copy + PartialOrd + Add<Output = V> + Sub<Output = V> + Mul<Output = V> + Div<
        Output = V,
    > + Neg<Output = V> + From<u8>,
 {

}

/// The sum of two numbers.
pub open spec fn plus<V: Number>(a: V, b: V) -> V {
    a.add_spec(b)
}

/// The difference of two numbers.
pub open spec fn minus<V: Number>(a: V, b: V) -> V {
    a.sub_spec(b)
}

/// The product of two numbers.
pub open spec fn times<V: Number>(a: V, b: V) -> V {
    a.mul_spec(b)
}

/// The quotient of two numbers.
pub open spec fn over<V: Number>(a: V, b: V) -> V {
    a.div_spec(b)
}

/// The number with the opposite sign.
pub open spec fn negated<V: Number>(a: V) -> V {
    a.neg_spec()
}

/// The number that a small integer converts to.
pub open spec fn small<V: Number>(n: u8) -> V {
    V::from_spec(n)
}

/// `a` is greater than `b`.
pub open spec fn above<V: Number>(a: V, b: V) -> bool {
    a.is_gt(&b)
}

/// `a` is less than `b`.
pub open spec fn below<V: Number>(a: V, b: V) -> bool {
    a.is_lt(&b)
}

/// `a` is greater than `b` or equal to it.
pub open spec fn at_least<V: Number>(a: V, b: V) -> bool {
    a.is_ge(&b)
}

/// `a` is less than `b` or equal to it.
pub open spec fn at_most<V: Number>(a: V, b: V) -> bool {
    a.is_le(&b)
}

/// `a` and `b` compare equal.
pub open spec fn same<V: Number>(a: V, b: V) -> bool {
    a.eq_spec(&b)
}

/// The operators of `V` are defined on all operands, and what they give is
/// determined by the operands.
pub open spec fn arithmetic<V: Number>() -> bool {
    &&& V::obeys_add_spec() && V::obeys_sub_spec() && V::obeys_mul_spec() && V::obeys_div_spec()
        && V::obeys_neg_spec()
    &&& V::obeys_from_spec()
    &&& V::obeys_partial_cmp_spec() && V::obeys_eq_spec()
    &&& forall|a: V, b: V| #[trigger] a.add_req(b)
    &&& forall|a: V, b: V| #[trigger] a.sub_req(b)
    &&& forall|a: V, b: V| #[trigger] a.mul_req(b)
    &&& forall|a: V, b: V| #[trigger] a.div_req(b)
    &&& forall|a: V| #[trigger] a.neg_req()
}

/// `above` is a strict order, as it is for the numbers of every floating-point
/// type.
pub open spec fn ordered<V: Number>() -> bool {
    &&& forall|a: V| !(#[trigger] above(a, a))
    &&& forall|a: V, b: V, c: V|
        #[trigger] above(a, b) && #[trigger] above(b, c) ==> above(a, c)
}

/// The quotient of minus one and zero: minus infinity, where there is one.
pub open spec fn lowest<V: Number>() -> V {
    over(negated(small::<V>(1)), small::<V>(0))
}

/// Computes [`lowest`].
pub fn lowest_number<V: Number>() -> (r: V)
    requires
        arithmetic::<V>(),
    ensures
        r == lowest::<V>(),
{
    let one: V = V::from(1u8);
    let zero: V = V::from(0u8);
    one.neg() / zero
}

/// `v` is what `n` converts to.
pub open spec fn number_of<V: From<u8>>(n: u8, v: V) -> bool {
    call_ensures(<V as From<u8>>::from, (n,), v)
}

/// The sum of a list of numbers, added up from the front, starting at zero.
pub open spec fn total<V: Number>(list: Seq<V>) -> V
    decreases list.len(),
{
    if list.len() == 0 {
        small(0)
    } else {
        plus(total(list.drop_last()), list.last())
    }
}

/// Adds up a list of numbers.
pub fn sum<V: Number>(list: &[V]) -> (r: V)
    requires
        arithmetic::<V>(),
    ensures
        r == total(list@),
{
    let mut s: V = V::from(0u8);
    let mut i: usize = 0;
    assert(list@.take(0) =~= Seq::<V>::empty());
    while i < list.len()
        invariant
            arithmetic::<V>(),
            i <= list.len(),
            s == total(list@.take(i as int)),
        decreases list.len() - i,
    {
        assert(list@.take(i + 1).drop_last() =~= list@.take(i as int));
        s = s + list[i];
        i = i + 1;
    }
    assert(list@.take(i as int) =~= list@);
    s
}

/// `v` stands for a number that is missing: it does not even equal itself.
pub open spec fn missing<V: Number>(v: V) -> bool {
    !same(v, v)
}

/// Whether a number is missing.
pub fn is_missing<V: Number>(v: V) -> (r: bool)
    requires
        arithmetic::<V>(),
    ensures
        r == missing(v),
{
    !(v == v)
}

/// Among numbers that are not missing, "not above" is transitive, as it is for
/// the numbers of every floating-point type.
pub open spec fn ranked<V: Number>() -> bool {
    forall|a: V, b: V, c: V|
        !missing(a) && !missing(b) && !missing(c) && !(#[trigger] above(a, b)) && !(#[trigger] above(
            b,
            c,
        )) ==> !above(a, c)
}

/// The quotient of one and zero: infinity, where there is one.
pub open spec fn highest<V: Number>() -> V {
    over(small::<V>(1), small::<V>(0))
}

/// Computes [`highest`].
pub fn highest_number<V: Number>() -> (r: V)
    requires
        arithmetic::<V>(),
    ensures
        r == highest::<V>(),
{
    let one: V = V::from(1u8);
    let zero: V = V::from(0u8);
    one / zero
}

/// A number that is neither missing nor infinite.
pub open spec fn finite<V: Number>(v: V) -> bool {
    !missing(v) && below(v, highest()) && above(v, lowest())
}

/// Whether a number is neither missing nor infinite.
pub fn is_finite<V: Number>(v: V) -> (r: bool)
    requires
        arithmetic::<V>(),
    ensures
        r == finite(v),
{
    let high: V = highest_number();
    let low: V = lowest_number();
    v == v && v < high && v > low
}

/// Ten to the power of `n`.
pub open spec fn ten_to<V: Number>(n: nat) -> V
    decreases n,
{
    if n == 0 {
        small(1)
    } else {
        times(ten_to((n - 1) as nat), small(10))
    }
}

/// One over ten to the power of `n`.
pub open spec fn tenth_to<V: Number>(n: nat) -> V {
    over(small(1), ten_to(n))
}

/// Computes [`tenth_to`].
pub fn small_fraction<V: Number>(n: u8) -> (r: V)
    requires
        arithmetic::<V>(),
    ensures
        r == tenth_to::<V>(n as nat),
{
    let one: V = V::from(1u8);
    let ten: V = V::from(10u8);
    let mut power: V = one;
    let mut i: u8 = 0;
    while i < n
        invariant
            arithmetic::<V>(),
            i <= n,
            ten == small::<V>(10),
            power == ten_to::<V>(i as nat),
        decreases n - i,
    {
        power = power * ten;
        i = i + 1;
    }
    one / power
}

/// The quotient of two small whole numbers.
pub open spec fn ratio<V: Number>(n: u8, d: u8) -> V {
    over(small(n), small(d))
}

/// Computes [`ratio`].
pub fn ratio_number<V: Number>(n: u8, d: u8) -> (r: V)
    requires
        arithmetic::<V>(),
    ensures
        r == ratio::<V>(n, d),
{
    let a: V = V::from(n);
    let b: V = V::from(d);
    a / b
}

/// Small whole numbers and their quotients are in the order of the exact ones,
/// as they are for every floating-point type.
pub open spec fn graded<V: Number>() -> bool {
    &&& forall|a: u8, b: u8| a <= b ==> #[trigger] at_most(small::<V>(a), small::<V>(b))
    &&& forall|a: u8, b: u8, c: u8, d: u8|
        b > 0 && d > 0 && a * d <= c * b ==> #[trigger] at_most(ratio::<V>(a, b), ratio::<V>(c, d))
    &&& forall|a: u8, b: u8, c: u8|
        b > 0 && a <= c * b ==> #[trigger] at_most(ratio::<V>(a, b), small::<V>(c))
    &&& forall|a: u8, c: u8, d: u8|
        d > 0 && a * d <= c ==> #[trigger] at_most(small::<V>(a), ratio::<V>(c, d))
}

/// The greater of two numbers, or the one that is not missing.
pub open spec fn greater_of<V: Number>(a: V, b: V) -> V {
    if missing(b) || above(a, b) {
        a
    } else {
        b
    }
}

/// Computes [`greater_of`].
pub fn greater<V: Number>(a: V, b: V) -> (r: V)
    requires
        arithmetic::<V>(),
    ensures
        r == greater_of(a, b),
{
    if is_missing(b) || a > b {
        a
    } else {
        b
    }
}

/// The lesser of two numbers, or the one that is not missing.
pub open spec fn lesser_of<V: Number>(a: V, b: V) -> V {
    if missing(b) || below(a, b) {
        a
    } else {
        b
    }
}

/// Computes [`lesser_of`].
pub fn lesser<V: Number>(a: V, b: V) -> (r: V)
    requires
        arithmetic::<V>(),
    ensures
        r == lesser_of(a, b),
{
    if is_missing(b) || a < b {
        a
    } else {
        b
    }
}

/// The number without its sign.
pub open spec fn absolute<V: Number>(v: V) -> V {
    if below(v, small(0)) {
        negated(v)
    } else {
        v
    }
}

/// Computes [`absolute`].
pub fn magnitude<V: Number>(v: V) -> (r: V)
    requires
        arithmetic::<V>(),
    ensures
        r == absolute(v),
{
    let zero: V = V::from(0u8);
    if v < zero {
        v.neg()
    } else {
        v
    }
}

/// The number nearest to `v` from `low` to `high`.
pub open spec fn clamped<V: Number>(v: V, low: V, high: V) -> V {
    let v1 = if below(v, low) {
        low
    } else {
        v
    };
    if above(v1, high) {
        high
    } else {
        v1
    }
}

/// Computes [`clamped`].
pub fn clamp<V: Number>(v: V, low: V, high: V) -> (r: V)
    requires
        arithmetic::<V>(),
    ensures
        r == clamped(v, low, high),
{
    let mut r: V = v;
    if r < low {
        r = low;
    }
    if r > high {
        r = high;
    }
    r
}

/// "Below" is "above" read backwards, as it is for the numbers of every
/// floating-point type.
pub open spec fn mirrored<V: Number>() -> bool {
    forall|a: V, b: V| #[trigger] below(a, b) <==> above(b, a)
}

/// Numbers that are not missing are equal exactly if neither is above the other,
/// as it is for the numbers of every floating-point type.
pub open spec fn comparable<V: Number>() -> bool {
    forall|a: V, b: V|
        !missing(a) && !missing(b) ==> (#[trigger] same(a, b) <==> !above(a, b) && !above(b, a))
}

/// Numbers that are not missing are at most as great as others exactly if they
/// are not above them, as it is for the numbers of every floating-point type.
pub open spec fn connected<V: Number>() -> bool {
    forall|a: V, b: V|
        !missing(a) && !missing(b) ==> (#[trigger] at_most(a, b) <==> !above(a, b))
}

/// A divisor that is not negative: neither it nor its inverse is below zero.
pub open spec fn upward<V: Number>(c: V) -> bool {
    !below(c, small(0)) && !below(over(small(1), c), small(0))
}

/// The operators keep the order of their first operand, and only numbers that
/// are not missing are in order, as it is for every floating-point type.
pub open spec fn monotone<V: Number>() -> bool {
    &&& forall|a: V, b: V, c: V|
        !above(a, b) ==> !above(#[trigger] plus(a, c), #[trigger] plus(b, c))
    &&& forall|a: V, b: V, c: V|
        !above(a, b) ==> !above(#[trigger] minus(a, c), #[trigger] minus(b, c))
    &&& forall|a: V, b: V, c: V|
        !above(a, b) && !below(c, small(0)) ==> !above(
            #[trigger] times(a, c),
            #[trigger] times(b, c),
        )
    &&& forall|a: V, b: V, c: V|
        !above(a, b) && upward(c) ==> !above(#[trigger] over(a, c), #[trigger] over(b, c))
    &&& forall|a: V, b: V| !above(a, b) ==> !below(#[trigger] minus(b, a), small(0))
    &&& forall|a: V, b: V| #[trigger] above(a, b) ==> !missing(a) && !missing(b)
    &&& forall|a: V, b: V| #[trigger] at_most(a, b) ==> !missing(a) && !missing(b) && !above(a, b)
}

/// Only numbers that are not missing are above others, as it is for every
/// floating-point type.
pub open spec fn decided<V: Number>() -> bool {
    forall|a: V, b: V| #[trigger] above(a, b) ==> !missing(a) && !missing(b)
}

/// A difference falls as what is taken off rises, as it does for every
/// floating-point type.
pub open spec fn antitone<V: Number>() -> bool {
    forall|a: V, b: V, c: V|
        !above(a, b) ==> !above(#[trigger] minus(c, b), #[trigger] minus(c, a))
}

/// Clamping keeps the order.
pub proof fn law_clamped_in_order<V: Number>(a: V, b: V, low: V, high: V)
    requires
        ordered::<V>(),
        ranked::<V>(),
        mirrored::<V>(),
        monotone::<V>(),
        at_most(low, high),
        !above(a, b),
    ensures
        !above(clamped(a, low, high), clamped(b, low, high)),
{
    assert(!above(low, high) && !missing(low) && !missing(high));
    if below(a, low) {
        assert(!above(low, low));
        if !below(b, low) {
            assert(!above(low, b));
        }
    } else if above(a, high) {
        assert(!missing(a));
        if below(b, low) {
            assert(above(low, b));
            assert(!missing(b));
            if above(b, low) {
                assert(above(b, b));
            }
            assert(!above(a, low));
            assert(!above(a, high));
        } else if above(high, b) {
            assert(above(a, b));
        }
    } else if below(b, low) {
        assert(above(low, b));
        if above(a, low) {
            assert(above(a, b));
        }
    }
    assert(!above(high, high));
}

/// A clamped number lies between the limits, and is the number itself where
/// that does.
pub proof fn law_clamped_within<V: Number>(v: V, low: V, high: V)
    requires
        ordered::<V>(),
        mirrored::<V>(),
        at_most(low, high),
    ensures
        !below(clamped(v, low, high), low),
        !above(clamped(v, low, high), high),
        !below(v, low) && !above(v, high) ==> clamped(v, low, high) == v,
{
}

} // verus!
