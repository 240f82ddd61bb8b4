//! Random numbers.

use rand::rngs::StdRng;
use rand::seq::SliceRandom;
use rand::SeedableRng;
use vstd::prelude::*;

verus! {

/// The generator `rand::rngs::StdRng`.
#[verifier::external_type_specification]
#[verifier::external_body]
pub struct ExStdRng(rand::rngs::StdRng);

/// A generator that was used for nothing but shuffling lists since it was
/// seeded. The generator is a stream cipher that draws on nothing but its seed,
/// and how much of the stream a shuffle takes rests on the length of the list:
/// so the seed and the lengths shuffled so far say in which state it is.
pub struct Generator {
    rng: StdRng,
    past: Ghost<(u64, Seq<nat>)>,
}

impl Generator {
    /// What the generator was seeded with.
    pub closed spec fn seed(&self) -> u64 {
        self.past@.0
    }

    /// The lengths of the lists that were shuffled so far.
    pub closed spec fn lengths(&self) -> Seq<nat> {
        self.past@.1
    }

    /// The generator itself.
    pub closed spec fn rng(&self) -> StdRng {
        self.rng
    }

    /// Gives out the generator itself, to draw other numbers with it.
    pub fn into_rng(self) -> (r: StdRng)
        ensures
            r == self.rng(),
    {
        self.rng
    }
}

/// A generator that starts at a seed: `rand::SeedableRng::seed_from_u64` for
/// `rand::rngs::StdRng`. No list has been shuffled with it.
#[verifier::external_body]
pub(crate) fn seeded(seed: u64) -> (r: Generator)
    ensures
        r.seed() == seed,
        r.lengths() == Seq::<nat>::empty(),
{
    Generator { rng: StdRng::seed_from_u64(seed), past: Ghost((seed, Seq::empty())) }
}

/// The order into which `rand::seq::SliceRandom::shuffle` brings a list with
/// `rand::rngs::StdRng`, seeded with `seed`, after lists of these lengths were
/// shuffled with it.
pub uninterp spec fn shuffled_after(items: Seq<usize>, seed: u64, lengths: Seq<nat>) -> Seq<usize>;

/// Shuffles a list in place: `rand::seq::SliceRandom::shuffle`. It exchanges
/// entries at places that the generator alone decides: the outcome is
/// determined by the list and the state of the generator, and holds the same
/// entries.
#[verifier::external_body]
pub(crate) fn shuffle(items: &mut Vec<usize>, generator: &mut Generator)
    ensures
        final(items)@ == shuffled_after(
            old(items)@,
            old(generator).seed(),
            old(generator).lengths(),
        ),
        final(items)@.to_multiset() == old(items)@.to_multiset(),
        final(generator).seed() == old(generator).seed(),
        final(generator).lengths() == old(generator).lengths().push(old(items)@.len()),
{
    items.shuffle(&mut generator.rng);
}

/// The numbers from 0 to `n - 1`.
pub open spec fn counting(n: nat) -> Seq<usize> {
    Seq::new(n, |i: int| i as usize)
}

/// A list holds each number from 0 to `n - 1` once.
pub open spec fn is_permutation(list: Seq<usize>, n: nat) -> bool {
    list.to_multiset() == counting(n).to_multiset()
}

/// A permutation holds each number below `n` at one place, and no other.
pub proof fn law_permutation(list: Seq<usize>, n: nat)
    requires
        is_permutation(list, n),
        n <= usize::MAX,
    ensures
        list.len() == n,
        forall|i: int| 0 <= i < list.len() ==> (#[trigger] list[i]) < n,
        forall|v: usize| v < n ==> #[trigger] list.contains(v),
        forall|i: int, j: int|
            0 <= i < j < list.len() ==> #[trigger] list[i] != #[trigger] list[j],
{
    broadcast use vstd::seq_lib::group_to_multiset_ensures;

    let all = counting(n);
    assert(list.len() == list.to_multiset().len());
    assert(all.len() == all.to_multiset().len());
    assert(all.no_duplicates());
    all.lemma_multiset_has_no_duplicates();
    assert forall|v: usize| v < n implies #[trigger] list.contains(v) by {
        assert(all[v as int] == v);
        assert(all.contains(v));
        assert(all.to_multiset().contains(v));
        assert(list.to_multiset().contains(v));
    }
    assert forall|i: int| 0 <= i < list.len() implies (#[trigger] list[i]) < n by {
        assert(list.contains(list[i]));
        assert(list.to_multiset().contains(list[i]));
        assert(all.to_multiset().contains(list[i]));
        assert(all.contains(list[i]));
    }
    list.lemma_multiset_has_no_duplicates_conv();
}

/// The length `n`, several times.
pub open spec fn repeated(n: nat, times: nat) -> Seq<nat> {
    Seq::new(times, |i: int| n)
}

/// Several lists, each a permutation of the numbers below `n`, in a random
/// order.
pub fn permutations(count: usize, n: usize, generator: &mut Generator) -> (r: Vec<Vec<usize>>)
    ensures
        r@.len() == count,
        forall|p: int| 0 <= p < r@.len() ==> is_permutation((#[trigger] r@[p])@, n as nat),
        forall|p: int|
            0 <= p < r@.len() ==> (#[trigger] r@[p])@ == shuffled_after(
                counting(n as nat),
                old(generator).seed(),
                old(generator).lengths() + repeated(n as nat, p as nat),
            ),
        final(generator).seed() == old(generator).seed(),
        final(generator).lengths() == old(generator).lengths() + repeated(n as nat, count as nat),
{
    assert(generator.lengths() =~= generator.lengths() + repeated(n as nat, 0));
    let mut lists: Vec<Vec<usize>> = Vec::new();
    let mut p: usize = 0;
    while p < count
        invariant
            p <= count,
            lists@.len() == p,
            forall|k: int| 0 <= k < p ==> is_permutation((#[trigger] lists@[k])@, n as nat),
            forall|k: int|
                0 <= k < p ==> (#[trigger] lists@[k])@ == shuffled_after(
                    counting(n as nat),
                    old(generator).seed(),
                    old(generator).lengths() + repeated(n as nat, k as nat),
                ),
            generator.seed() == old(generator).seed(),
            generator.lengths() == old(generator).lengths() + repeated(n as nat, p as nat),
        decreases count - p,
    {
        let mut list: Vec<usize> = Vec::new();
        let mut i: usize = 0;
        while i < n
            invariant
                i <= n,
                list@ == counting(i as nat),
            decreases n - i,
        {
            list.push(i);
            i = i + 1;
            assert(list@ =~= counting(i as nat));
        }
        shuffle(&mut list, generator);
        lists.push(list);
        p = p + 1;
        assert(generator.lengths() =~= old(generator).lengths() + repeated(n as nat, p as nat));
    }
    lists
}

} // verus!
