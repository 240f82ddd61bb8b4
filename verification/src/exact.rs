//! Numbers that are not rounded.
//!
//! The contracts say which operations are carried out. What these come to is a
//! matter of the reals: the laws that need more than the order of the numbers
//! are stated for numbers whose operators are those of the reals.

use crate::functions::Functions;
use crate::number::Number;
use vstd::prelude::*;

verus! {

/// `worth` says which real number each number is, and the operators are those
/// of the real numbers.
pub open spec fn exact<V: Number>(worth: spec_fn(V) -> real) -> bool {
    &&& forall|a: V, b: V|
        worth(#[trigger] crate::number::plus(a, b)) == worth(a) + worth(b)
    &&& forall|a: V, b: V|
        worth(#[trigger] crate::number::minus(a, b)) == worth(a) - worth(b)
    &&& forall|a: V, b: V|
        worth(#[trigger] crate::number::times(a, b)) == worth(a) * worth(b)
    &&& forall|a: V, b: V|
        worth(b) != 0real ==> worth(#[trigger] crate::number::over(a, b)) == worth(a) / worth(b)
    &&& forall|a: V| worth(#[trigger] crate::number::negated(a)) == 0real - worth(a)
    &&& forall|n: u8| worth(#[trigger] crate::number::small::<V>(n)) == n as real
    &&& forall|a: V, b: V| #[trigger] crate::number::above(a, b) <==> worth(a) > worth(b)
    &&& forall|a: V, b: V| #[trigger] crate::number::below(a, b) <==> worth(a) < worth(b)
    &&& forall|a: V, b: V| #[trigger] crate::number::at_least(a, b) <==> worth(a) >= worth(b)
    &&& forall|a: V, b: V| #[trigger] crate::number::at_most(a, b) <==> worth(a) <= worth(b)
    &&& forall|a: V, b: V| #[trigger] crate::number::same(a, b) <==> worth(a) == worth(b)
}

/// No two numbers are the same real number.
pub open spec fn distinct<V: Number>() -> bool {
    forall|a: V, b: V| #[trigger] crate::number::same(a, b) ==> a == b
}

/// The functions on numbers are those of the real numbers: powers, exponentials
/// and logarithms.
pub open spec fn powers<V: Number, F: Functions<V>>(f: &F, worth: spec_fn(V) -> real) -> bool {
    &&& forall|v: V| worth(#[trigger] crate::functions::exp_of(f, v)) > 0real
    &&& forall|v: V|
        worth(crate::functions::ln_of(f, #[trigger] crate::functions::exp_of(f, v))) == worth(v)
    &&& forall|v: V|
        worth(v) > 0real ==> worth(
            #[trigger] crate::functions::exp_of(f, crate::functions::ln_of(f, v)),
        ) == worth(v)
    &&& forall|a: V, b: V|
        0real < worth(a) && worth(a) < worth(b) ==> worth(
            #[trigger] crate::functions::ln_of(f, a),
        ) < worth(#[trigger] crate::functions::ln_of(f, b))
    &&& forall|a: V, b: V|
        worth(a) > 0real && worth(b) > 0real ==> worth(
            #[trigger] crate::functions::ln_of(f, crate::number::times(a, b)),
        ) == worth(crate::functions::ln_of(f, a)) + worth(crate::functions::ln_of(f, b))
    &&& forall|a: V, b: V|
        worth(a) > 0real ==> worth(#[trigger] crate::functions::pow_of(f, a, b)) > 0real && worth(
            crate::functions::ln_of(f, crate::functions::pow_of(f, a, b)),
        ) == worth(b) * worth(crate::functions::ln_of(f, a))
    &&& forall|v: V|
        worth(v) > 0real ==> worth(#[trigger] crate::functions::log2_of(f, v)) * worth(
            crate::functions::ln_of(f, crate::number::small::<V>(2)),
        ) == worth(crate::functions::ln_of(f, v))
}

/// Whole numbers are themselves.
pub open spec fn counts<V: Number, F: Functions<V>>(f: &F, worth: spec_fn(V) -> real) -> bool {
    forall|n: usize| worth(#[trigger] crate::functions::count_of::<V, F>(f, n)) == n as real
}

/// Square roots are those of the real numbers.
pub open spec fn roots<V: Number, F: Functions<V>>(f: &F, worth: spec_fn(V) -> real) -> bool {
    forall|v: V|
        worth(v) >= 0real ==> {
            let r = worth(#[trigger] crate::functions::root_of(f, v));
            r >= 0real && r * r == worth(v)
        }
}

/// The logarithm of one is zero.
pub proof fn lemma_ln_one<V: Number, F: Functions<V>>(f: &F, worth: spec_fn(V) -> real)
    requires
        exact(worth),
        distinct::<V>(),
        powers(f, worth),
    ensures
        worth(crate::functions::ln_of(f, crate::number::small::<V>(1))) == 0real,
{
    let one = crate::number::small::<V>(1);
    let square = crate::number::times(one, one);
    assert(worth(square) == worth(one) * worth(one));
    assert(worth(one) * worth(one) == 1real) by (nonlinear_arith)
        requires
            worth(one) == 1real,
    ;
    assert(crate::number::same(square, one));
    assert(worth(crate::functions::ln_of(f, square)) == worth(crate::functions::ln_of(f, one))
        + worth(crate::functions::ln_of(f, one)));
}

/// A list of numbers adds up to what its parts add up to, one number to itself,
/// and no numbers to zero.
pub proof fn law_totals_add_up<V: Number>(worth: spec_fn(V) -> real, a: Seq<V>, b: Seq<V>, v: V)
    requires
        exact(worth),
    ensures
        worth(crate::number::total(a + b)) == worth(crate::number::total(a)) + worth(
            crate::number::total(b),
        ),
        worth(crate::number::total(seq![v])) == worth(v),
        worth(crate::number::total(Seq::<V>::empty())) == 0real,
    decreases b.len(),
{
    assert(seq![v].drop_last() =~= Seq::<V>::empty());
    assert(worth(crate::number::total(Seq::<V>::empty())) == 0real);
    assert(worth(crate::number::total(seq![v])) == worth(v)) by {
        assert(seq![v].last() == v);
    }
    if b.len() == 0 {
        assert(a + b =~= a);
        assert(b =~= Seq::<V>::empty());
    } else {
        assert((a + b).drop_last() =~= a + b.drop_last());
        assert((a + b).last() == b.last());
        law_totals_add_up(worth, a, b.drop_last(), v);
    }
}

/// A list of numbers that are not negative adds up to nothing less than zero, and
/// to zero only if all are zero.
pub proof fn lemma_total_of_squares<V: Number>(worth: spec_fn(V) -> real, list: Seq<V>)
    requires
        exact(worth),
        forall|i: int| 0 <= i < list.len() ==> worth(#[trigger] list[i]) >= 0real,
    ensures
        worth(crate::number::total(list)) >= 0real,
        worth(crate::number::total(list)) == 0real <==> forall|i: int|
            0 <= i < list.len() ==> worth(#[trigger] list[i]) == 0real,
    decreases list.len(),
{
    if list.len() > 0 {
        let fewer = list.drop_last();
        assert forall|i: int| 0 <= i < fewer.len() implies worth(#[trigger] fewer[i]) >= 0real by {
            assert(fewer[i] == list[i]);
        }
        lemma_total_of_squares(worth, fewer);
        let last = list.len() - 1;
        assert(worth(list[last]) >= 0real);
        if worth(crate::number::total(list)) == 0real {
            assert forall|i: int| 0 <= i < list.len() implies worth(#[trigger] list[i])
                == 0real by {
                if i < last {
                    assert(fewer[i] == list[i]);
                }
            }
        }
        if forall|i: int| 0 <= i < list.len() ==> worth(#[trigger] list[i]) == 0real {
            assert forall|i: int| 0 <= i < fewer.len() implies worth(#[trigger] fewer[i])
                == 0real by {
                assert(fewer[i] == list[i]);
            }
        }
    }
}

/// If every number of a list is `c` times that of another, so is the sum.
pub proof fn lemma_total_scaled<V: Number>(
    worth: spec_fn(V) -> real,
    a: Seq<V>,
    b: Seq<V>,
    c: real,
)
    requires
        exact(worth),
        a.len() == b.len(),
        forall|i: int| 0 <= i < a.len() ==> worth(#[trigger] b[i]) == c * worth(a[i]),
    ensures
        worth(crate::number::total(b)) == c * worth(crate::number::total(a)),
    decreases a.len(),
{
    if a.len() > 0 {
        let (p, q) = (a.drop_last(), b.drop_last());
        assert forall|i: int| 0 <= i < p.len() implies worth(#[trigger] q[i]) == c * worth(
            p[i],
        ) by {
            assert(q[i] == b[i] && p[i] == a[i]);
        }
        lemma_total_scaled(worth, p, q, c);
        let last = a.len() - 1;
        assert(worth(b[last]) == c * worth(a[last]));
        let (x, y) = (worth(crate::number::total(p)), worth(a[last]));
        assert(c * x + c * y == c * (x + y)) by (nonlinear_arith);
    } else {
        assert(c * 0real == 0real) by (nonlinear_arith);
    }
}

/// If every number of a list is that of another plus that of a third, so is the
/// sum.
pub proof fn lemma_total_summed<V: Number>(
    worth: spec_fn(V) -> real,
    a: Seq<V>,
    b: Seq<V>,
    c: Seq<V>,
)
    requires
        exact(worth),
        a.len() == c.len(),
        b.len() == c.len(),
        forall|i: int| 0 <= i < c.len() ==> worth(#[trigger] c[i]) == worth(a[i]) + worth(b[i]),
    ensures
        worth(crate::number::total(c)) == worth(crate::number::total(a)) + worth(
            crate::number::total(b),
        ),
    decreases c.len(),
{
    if c.len() > 0 {
        let (p, q, r) = (a.drop_last(), b.drop_last(), c.drop_last());
        assert forall|i: int| 0 <= i < r.len() implies worth(#[trigger] r[i]) == worth(p[i])
            + worth(q[i]) by {
            assert(r[i] == c[i] && p[i] == a[i] && q[i] == b[i]);
        }
        lemma_total_summed(worth, p, q, r);
        let last = c.len() - 1;
        assert(worth(c[last]) == worth(a[last]) + worth(b[last]));
    }
}

/// A number `n` times adds up to `n` times the number.
pub proof fn lemma_total_constant<V: Number>(worth: spec_fn(V) -> real, list: Seq<V>, c: real)
    requires
        exact(worth),
        forall|i: int| 0 <= i < list.len() ==> worth(#[trigger] list[i]) == c,
    ensures
        worth(crate::number::total(list)) == list.len() as real * c,
    decreases list.len(),
{
    if list.len() > 0 {
        let fewer = list.drop_last();
        assert forall|i: int| 0 <= i < fewer.len() implies worth(#[trigger] fewer[i]) == c by {
            assert(fewer[i] == list[i]);
        }
        lemma_total_constant(worth, fewer, c);
        let n = fewer.len() as real;
        assert(worth(list[list.len() - 1]) == c);
        assert(n * c + c == (n + 1real) * c) by (nonlinear_arith);
    } else {
        assert(0real * c == 0real) by (nonlinear_arith);
    }
}

/// Numbers are rounded up to the next whole number, and their whole part is the
/// last whole number that is not above them.
pub open spec fn rounding<V: Number, F: Functions<V>>(f: &F, worth: spec_fn(V) -> real) -> bool {
    &&& forall|v: V|
        0real <= worth(v) && worth(v) <= usize::MAX as real ==> {
            let c = #[trigger] crate::functions::ceil_of(f, v);
            &&& worth(v) <= worth(c)
            &&& worth(c) < worth(v) + 1real
            &&& worth(c) == crate::functions::whole_of(f, c) as real
        }
    &&& forall|v: V|
        0real <= worth(v) && worth(v) <= usize::MAX as real ==> {
            let n = #[trigger] crate::functions::whole_of(f, v);
            n as real <= worth(v) && worth(v) < n as real + 1real
        }
}

/// Powers of ten are positive, and so are their inverses.
pub proof fn lemma_tenth_positive<V: Number>(worth: spec_fn(V) -> real, n: nat)
    requires
        exact(worth),
    ensures
        worth(crate::number::ten_to::<V>(n)) >= 1real,
        worth(crate::number::tenth_to::<V>(n)) > 0real,
        worth(crate::number::tenth_to::<V>(n)) <= 1real,
        n > 0 ==> worth(crate::number::tenth_to::<V>(n)) < 1real,
        worth(crate::number::tenth_to::<V>(n)) * worth(crate::number::ten_to::<V>(n)) == 1real,
    decreases n,
{
    if n > 0 {
        lemma_tenth_positive(worth, (n - 1) as nat);
        let t = worth(crate::number::ten_to::<V>((n - 1) as nat));
        assert(t * 10real >= 10real) by (nonlinear_arith)
            requires
                t >= 1real,
        ;
    }
    let t = worth(crate::number::ten_to::<V>(n));
    assert(0real < 1real / t && 1real / t <= 1real && 1real / t * t == 1real) by (nonlinear_arith)
        requires
            t >= 1real,
    ;
    assert(t > 1real ==> 1real / t < 1real) by (nonlinear_arith)
        requires
            t >= 1real,
    ;
}

/// Ten times as small with each step.
pub proof fn law_tenths<V: Number>(worth: spec_fn(V) -> real, n: nat)
    requires
        exact(worth),
    ensures
        worth(crate::number::tenth_to::<V>(0)) == 1real,
        worth(crate::number::tenth_to::<V>(n)) == worth(crate::number::tenth_to::<V>(n + 1))
            * 10real,
{
    lemma_tenth_positive(worth, n);
    lemma_tenth_positive(worth, n + 1);
    lemma_tenth_positive(worth, 0);
    let t = worth(crate::number::ten_to::<V>(n));
    let u = worth(crate::number::ten_to::<V>(n + 1));
    let (a, b) = (
        worth(crate::number::tenth_to::<V>(n)),
        worth(crate::number::tenth_to::<V>(n + 1)),
    );
    assert(crate::number::ten_to::<V>(n + 1) == crate::number::times(
        crate::number::ten_to::<V>(n),
        crate::number::small(10),
    ));
    assert(a == b * 10real) by (nonlinear_arith)
        requires
            a * t == 1real,
            b * u == 1real,
            u == t * 10real,
            t >= 1real,
    ;
    let z = worth(crate::number::tenth_to::<V>(0));
    assert(z == 1real) by (nonlinear_arith)
        requires
            z * 1real == 1real,
    ;
}

/// Positive numbers with the same logarithm are the same.
pub proof fn lemma_ln_injective<V: Number, F: Functions<V>>(
    f: &F,
    worth: spec_fn(V) -> real,
    a: V,
    b: V,
)
    requires
        exact(worth),
        distinct::<V>(),
        powers(f, worth),
        worth(a) > 0real,
        worth(b) > 0real,
        worth(crate::functions::ln_of(f, a)) == worth(crate::functions::ln_of(f, b)),
    ensures
        a == b,
{
    assert(!(worth(a) < worth(b)));
    assert(!(worth(b) < worth(a)));
    assert(crate::number::same(a, b));
}

/// The logarithm is positive above one and negative below.
pub proof fn lemma_ln_sign<V: Number, F: Functions<V>>(f: &F, worth: spec_fn(V) -> real, a: V)
    requires
        exact(worth),
        distinct::<V>(),
        powers(f, worth),
        worth(a) > 0real,
    ensures
        worth(a) > 1real <==> worth(crate::functions::ln_of(f, a)) > 0real,
        worth(a) < 1real <==> worth(crate::functions::ln_of(f, a)) < 0real,
{
    lemma_ln_one(f, worth);
    let one = crate::number::small::<V>(1);
    if worth(a) > 1real {
        assert(worth(crate::functions::ln_of(f, one)) < worth(crate::functions::ln_of(f, a)));
    } else if worth(a) < 1real {
        assert(worth(crate::functions::ln_of(f, a)) < worth(crate::functions::ln_of(f, one)));
    } else {
        assert(crate::number::same(a, one));
    }
}

/// A quotient times the divisor is the dividend.
pub proof fn lemma_quotient(a: real, b: real)
    requires
        b != 0real,
    ensures
        a / b * b == a,
        b * (a / b) == a,
{
    assert(a / b * b == a) by (nonlinear_arith)
        requires
            b != 0real,
    ;
    let q = a / b;
    assert(q * b == b * q) by (nonlinear_arith);
}

/// Numbers with the same multiple are the same.
pub proof fn lemma_cancel(a: real, b: real, c: real)
    requires
        c != 0real,
        c * a == c * b,
    ensures
        a == b,
{
    let d = a - b;
    assert(c * d == c * a - c * b) by (nonlinear_arith)
        requires
            d == a - b,
    ;
    assert(d == 0real) by (nonlinear_arith)
        requires
            c * d == 0real,
            c != 0real,
    ;
}

/// Powers to whole numbers: one at first, and once more the base with each step.
pub open spec fn whole_powers<V: Number, F: Functions<V>>(
    f: &F,
    worth: spec_fn(V) -> real,
) -> bool {
    &&& forall|v: V| worth(#[trigger] crate::functions::powi_of(f, v, 0)) == 1real
    &&& forall|v: V, n: i32|
        0 < n ==> worth(#[trigger] crate::functions::powi_of(f, v, n)) == worth(
            crate::functions::powi_of(f, v, (n - 1) as i32),
        ) * worth(v)
}

/// Exponentials of opposite numbers are the inverses of each other.
pub proof fn lemma_exp_inverse<V: Number, F: Functions<V>>(
    f: &F,
    worth: spec_fn(V) -> real,
    v: V,
    w: V,
)
    requires
        exact(worth),
        distinct::<V>(),
        powers(f, worth),
        worth(v) + worth(w) == 0real,
    ensures
        worth(crate::functions::exp_of(f, v)) * worth(crate::functions::exp_of(f, w)) == 1real,
{
    let (a, b) = (crate::functions::exp_of(f, v), crate::functions::exp_of(f, w));
    let one = crate::number::small::<V>(1);
    let product = crate::number::times(a, b);
    let (x, y) = (worth(a), worth(b));
    assert(x * y > 0real) by (nonlinear_arith)
        requires
            x > 0real,
            y > 0real,
    ;
    lemma_ln_one(f, worth);
    assert(worth(crate::functions::ln_of(f, product)) == worth(crate::functions::ln_of(f, a))
        + worth(crate::functions::ln_of(f, b)));
    lemma_ln_injective(f, worth, product, one);
}

/// The exponential of a sum is the product of the exponentials.
pub proof fn lemma_exp_adds<V: Number, F: Functions<V>>(
    f: &F,
    worth: spec_fn(V) -> real,
    v: V,
    w: V,
    sum: V,
)
    requires
        exact(worth),
        distinct::<V>(),
        powers(f, worth),
        worth(sum) == worth(v) + worth(w),
    ensures
        worth(crate::functions::exp_of(f, sum)) == worth(crate::functions::exp_of(f, v)) * worth(
            crate::functions::exp_of(f, w),
        ),
{
    let (a, b) = (crate::functions::exp_of(f, v), crate::functions::exp_of(f, w));
    let product = crate::number::times(a, b);
    let (x, y) = (worth(a), worth(b));
    assert(x * y > 0real) by (nonlinear_arith)
        requires
            x > 0real,
            y > 0real,
    ;
    assert(worth(crate::functions::ln_of(f, product)) == worth(crate::functions::ln_of(f, a))
        + worth(crate::functions::ln_of(f, b)));
    lemma_ln_injective(f, worth, crate::functions::exp_of(f, sum), product);
}

/// The exponential is above one exactly for positive numbers.
pub proof fn lemma_exp_sign<V: Number, F: Functions<V>>(f: &F, worth: spec_fn(V) -> real, v: V)
    requires
        exact(worth),
        distinct::<V>(),
        powers(f, worth),
    ensures
        worth(crate::functions::exp_of(f, v)) > 1real <==> worth(v) > 0real,
        worth(crate::functions::exp_of(f, v)) < 1real <==> worth(v) < 0real,
{
    lemma_ln_sign(f, worth, crate::functions::exp_of(f, v));
}

} // verus!
