//! Choosing a part of the features at random.

use crate::functions::Functions;
use crate::number::{greater, Number};
use crate::random::{seeded, shuffle};
use vstd::prelude::*;

verus! {

/// The order into which a list is brought by shuffling it with a generator that
/// is freshly seeded with `seed`.
pub open spec fn shuffled(items: Seq<usize>, seed: u64) -> Seq<usize> {
    crate::random::shuffled_after(items, seed, Seq::empty())
}

/// The first of the features, shuffled: at least one, and as many as `wanted`,
/// as far as there are so many.
pub open spec fn chosen_features(num_features: nat, wanted: nat, seed: u64) -> Seq<usize> {
    let least: nat = if wanted < 1 {
        1
    } else {
        wanted
    };
    let all = shuffled(crate::tree::grow::all_rows(num_features), seed);
    if least < all.len() {
        all.take(least as int)
    } else {
        all
    }
}

/// The part of a shuffled list that is kept: the first entries, at least one,
/// and as many as `wanted`, as far as there are so many.
pub fn keep_first(items: Vec<usize>, wanted: usize) -> (r: Vec<usize>)
    ensures
        ({
            let least: int = if wanted < 1 {
                1
            } else {
                wanted as int
            };
            r@ == (if least < items.len() {
                items@.take(least)
            } else {
                items@
            })
        }),
{
    let mut list = items;
    let least: usize = if wanted < 1 {
        1
    } else {
        wanted
    };
    if least < list.len() {
        list.truncate(least);
    }
    list
}

/// How many of `num_features` features the share `colsample` of them is, rounded
/// up, and at least one.
pub open spec fn share_size<V: Number, F: Functions<V>>(
    f: &F,
    num_features: usize,
    colsample: V,
) -> usize {
    crate::functions::whole_of(
        f,
        crate::number::greater_of(
            crate::functions::ceil_of(
                f,
                crate::number::times(crate::functions::count_of::<V, F>(f, num_features), colsample),
            ),
            crate::number::small(1),
        ),
    )
}

/// The features that a tree may use: all (`None`), where the share `colsample`
/// is one or more; otherwise a part of them chosen by `rng_seed`.
pub fn generate_feature_mask<V: Number, F: Functions<V>>(
    num_features: usize,
    colsample: V,
    rng_seed: u64,
    f: &F,
) -> (r: Option<Vec<usize>>)
    requires
        crate::number::arithmetic::<V>(),
        crate::functions::computes(f),
    ensures
        match r {
            None => crate::number::at_least(colsample, crate::number::small(1)),
            Some(mask) => {
                let wanted = share_size(f, num_features, colsample) as nat;
                &&& !crate::number::at_least(colsample, crate::number::small(1))
                &&& mask@ == chosen_features(num_features as nat, wanted, rng_seed)
                &&& is_choice(num_features as nat, wanted, mask@)
            },
        },
{
    let one: V = V::from(1u8);
    if colsample >= one {
        return None;
    }
    let wanted: usize = f.whole(greater(f.ceil(f.count(num_features) * colsample), one));
    let mut all: Vec<usize> = Vec::new();
    let mut filled: usize = 0;
    while filled < num_features
        invariant
            filled <= num_features,
            all@ == crate::tree::grow::all_rows(filled as nat),
        decreases num_features - filled,
    {
        all.push(filled);
        filled = filled + 1;
        assert(all@ =~= crate::tree::grow::all_rows(filled as nat));
    }
    let mut mixed = all;
    let mut generator = seeded(rng_seed);
    shuffle(&mut mixed, &mut generator);
    let ghost order = mixed@;
    let mask = keep_first(mixed, wanted);
    proof {
        law_choice_of_features(num_features as nat, wanted as nat, order, mask@);
    }
    Some(mask)
}

/// `mask` holds different features: at least one, if there is any, and as many
/// as wanted, as far as there are so many.
pub open spec fn is_choice(num_features: nat, wanted: nat, mask: Seq<usize>) -> bool {
    &&& mask.no_duplicates()
    &&& forall|k: int| 0 <= k < mask.len() ==> (#[trigger] mask[k]) < num_features
    &&& mask.len() == (if wanted < 1 {
        if num_features < 1 {
            0
        } else {
            1
        }
    } else if wanted < num_features {
        wanted
    } else {
        num_features
    })
}

/// The first entries of a list that holds all features once, in some order, are
/// different features, and as many as wanted.
pub proof fn law_choice_of_features(
    num_features: nat,
    wanted: nat,
    order: Seq<usize>,
    mask: Seq<usize>,
)
    requires
        num_features <= usize::MAX,
        order.to_multiset() == crate::tree::grow::all_rows(num_features).to_multiset(),
        ({
            let least: int = if wanted < 1 {
                1
            } else {
                wanted as int
            };
            mask == (if least < order.len() {
                order.take(least)
            } else {
                order
            })
        }),
    ensures
        is_choice(num_features, wanted, mask),
{
    broadcast use vstd::multiset::group_multiset_axioms;
    broadcast use vstd::seq_lib::group_to_multiset_ensures;

    let all = crate::tree::grow::all_rows(num_features);
    assert(order.to_multiset().len() == order.len());
    assert(all.to_multiset().len() == all.len());
    assert(order.len() == all.len());
    assert(all.no_duplicates());
    all.lemma_multiset_has_no_duplicates();
    order.lemma_multiset_has_no_duplicates_conv();
    assert forall|k: int| 0 <= k < mask.len() implies (#[trigger] mask[k]) < num_features by {
        assert(mask[k] == order[k]);
        assert(order.contains(order[k]));
        assert(all.to_multiset().count(order[k]) > 0);
        let j = choose|j: int| 0 <= j < all.len() && all[j] == order[k];
        assert(all[j] == j as usize);
    }
    assert forall|i: int, j: int| 0 <= i < mask.len() && 0 <= j < mask.len() && i != j implies mask[i]
        != mask[j] by {
        assert(mask[i] == order[i] && mask[j] == order[j]);
    }
}

/// The share of the features is rounded up to a whole number, and is at least
/// one.
pub proof fn law_share_is_rounded_up<V: Number, F: Functions<V>>(
    worth: spec_fn(V) -> real,
    f: &F,
    num_features: usize,
    colsample: V,
)
    requires
        crate::exact::exact(worth),
        crate::exact::counts(f, worth),
        crate::exact::rounding(f, worth),
        0real <= worth(colsample),
        worth(colsample) <= 1real,
        num_features < usize::MAX,
    ensures
        ({
            let wanted = num_features as real * worth(colsample);
            let size = share_size(f, num_features, colsample);
            &&& size >= 1
            &&& wanted <= size as real
            &&& size as real == 1real || size as real - 1real < wanted
        }),
{
    let n = num_features as real;
    let c = worth(colsample);
    let rest = 1real - c;
    assert(n * c >= 0real) by (nonlinear_arith)
        requires
            n >= 0real,
            c >= 0real,
    ;
    assert(n * rest >= 0real) by (nonlinear_arith)
        requires
            n >= 0real,
            rest >= 0real,
    ;
    assert(n * c + n * rest == n * (c + rest)) by (nonlinear_arith);
    assert(n * 1real == n) by (nonlinear_arith);
    let share = crate::number::times(crate::functions::count_of::<V, F>(f, num_features), colsample);
    let up = crate::functions::ceil_of(f, share);
    let one = crate::number::small::<V>(1);
    assert(worth(share) == n * c);
    let kept = crate::number::greater_of(up, one);
    assert(worth(up) <= usize::MAX as real);
    let size = crate::functions::whole_of(f, kept);
    assert(size as real <= worth(kept) && worth(kept) < size as real + 1real);
}

} // verus!
