use rand::rngs::StdRng;
use rand::Rng;
use rand::SeedableRng;
use rayon::slice::ParallelSliceMut;
use vstd::prelude::*;

verus! {

/// rand's standard generator, carried through as an opaque value.
#[verifier::external_type_specification]
#[verifier::external_body]
pub struct ExStdRng(StdRng);

/// Order of (key, index) pairs: by key, then by index.
pub open spec fn pair_le(a: (u64, usize), b: (u64, usize)) -> bool {
    a.0 < b.0 || (a.0 == b.0 && a.1 <= b.1)
}

pub open spec fn pairs_sorted(s: Seq<(u64, usize)>) -> bool {
    forall|i: int, j: int| 0 <= i < j < s.len() ==> pair_le(#[trigger] s[i], #[trigger] s[j])
}

/// Relies on rand's `Rng::gen_range(low, high)`: a value drawn from `low..high`
/// (it panics only when `low >= high`).
#[verifier::external_body]
pub(crate) fn random_below(rng: &mut StdRng, bound: usize) -> (r: usize)
    requires
        0 < bound,
    ensures
        r < bound,
{
    rng.gen_range(0, bound)
}

/// Relies on rand's `Rng::gen::<u64>`: a fresh value drawn from `rng`, of which
/// nothing is promised.
#[verifier::external_body]
pub(crate) fn random_seed(rng: &mut StdRng) -> u64 {
    rng.gen::<u64>()
}

/// Relies on rand's `SeedableRng::seed_from_u64`: a generator started from
/// `seed`.
#[verifier::external_body]
pub(crate) fn seeded_rng(seed: u64) -> StdRng {
    StdRng::seed_from_u64(seed)
}

/// Relies on rayon's `ParallelSliceMut::par_sort_unstable`: the slice ends in
/// ascending order (tuples compare lexicographically) and holds the same elements.
#[verifier::external_body]
pub(crate) fn sort_pairs(v: &mut Vec<(u64, usize)>)
    ensures
        pairs_sorted(final(v)@),
        final(v)@.to_multiset() == old(v)@.to_multiset(),
{
    v.par_sort_unstable();
}

} // verus!
