use rand::rngs::StdRng;
use vstd::prelude::*;

use crate::bvh::indices;
use crate::sampling::random_below;

verus! {

broadcast use vstd::seq_lib::group_to_multiset_ensures;

/// Number of lattice points along each axis of the noise, and of random values.
pub const POINT_COUNT: usize = 256;

/// `s` is an ordering of `0..POINT_COUNT`.
pub open spec fn is_permutation(s: Seq<usize>) -> bool {
    s.to_multiset() == indices(POINT_COUNT as nat).to_multiset()
}

/// Shuffles `0..POINT_COUNT` with the Fisher-Yates method, drawing from `rng`.
pub fn gen_perlin_permutation(rng: &mut StdRng) -> (r: Vec<usize>)
    ensures
        r.len() == POINT_COUNT,
        is_permutation(r@),
{
    let mut perm: Vec<usize> = Vec::new();
    let mut k: usize = 0;
    while k < POINT_COUNT
        invariant
            k <= POINT_COUNT,
            perm@ == indices(k as nat),
        decreases POINT_COUNT - k,
    {
        perm.push(k);
        k = k + 1;
        assert(perm@ =~= indices(k as nat));
    }
    let mut i: usize = POINT_COUNT;
    while i > 0
        invariant
            i <= POINT_COUNT,
            perm.len() == POINT_COUNT,
            is_permutation(perm@),
        decreases i,
    {
        i = i - 1;
        let target = random_below(rng, i + 1);
        let a = perm[i];
        let b = perm[target];
        let ghost before = perm@;
        perm.set(i, b);
        perm.set(target, a);
        proof {
            let mid = before.update(i as int, b);
            assert(mid.to_multiset() == before.to_multiset().insert(b).remove(a));
            assert(perm@ == mid.update(target as int, a));
            assert(perm@.to_multiset() == mid.to_multiset().insert(a).remove(mid[target as int]));
            assert(perm@.to_multiset() =~= before.to_multiset());
        }
    }
    perm
}

/// The three permutations that hash a lattice point to one of the noise's
/// random values.
#[derive(Clone, Debug)]
pub struct PerlinLattice {
    pub perm_x: Vec<usize>,
    pub perm_y: Vec<usize>,
    pub perm_z: Vec<usize>,
}

impl PerlinLattice {
    pub open spec fn wf(self) -> bool {
        &&& self.perm_x.len() == POINT_COUNT
        &&& self.perm_y.len() == POINT_COUNT
        &&& self.perm_z.len() == POINT_COUNT
        &&& is_permutation(self.perm_x@)
        &&& is_permutation(self.perm_y@)
        &&& is_permutation(self.perm_z@)
    }

    /// The random value slot of lattice point `(i, j, k)`: the exclusive or of
    /// the three permutations, each at its coordinate wrapped to the lattice.
    pub open spec fn slot(self, i: int, j: int, k: int) -> usize {
        (self.perm_x@[i % 256] ^ self.perm_y@[j % 256]) ^ self.perm_z@[k % 256]
    }

    pub fn with_rng(rng: &mut StdRng) -> (r: PerlinLattice)
        ensures
            r.wf(),
    {
        let perm_x = gen_perlin_permutation(rng);
        let perm_y = gen_perlin_permutation(rng);
        let perm_z = gen_perlin_permutation(rng);
        PerlinLattice { perm_x, perm_y, perm_z }
    }

    /// The slot of the lattice point at offset `(di, dj, dk)` from the cell
    /// whose lowest corner is `(i, j, k)`; always below `POINT_COUNT`.
    pub fn corner_slot(&self, i: usize, j: usize, k: usize, di: usize, dj: usize, dk: usize) -> (r: usize)
        requires
            self.wf(),
            di <= 1,
            dj <= 1,
            dk <= 1,
        ensures
            r == self.slot(i + di, j + dj, k + dk),
            r < POINT_COUNT,
    {
        let x = (i % 256 + di) % 256;
        let y = (j % 256 + dj) % 256;
        let z = (k % 256 + dk) % 256;
        assert(x as int == (i + di) % 256) by (nonlinear_arith)
            requires x == (i % 256 + di) % 256, di <= 1;
        assert(y as int == (j + dj) % 256) by (nonlinear_arith)
            requires y == (j % 256 + dj) % 256, dj <= 1;
        assert(z as int == (k + dk) % 256) by (nonlinear_arith)
            requires z == (k % 256 + dk) % 256, dk <= 1;
        let a = self.perm_x[x];
        let b = self.perm_y[y];
        let c = self.perm_z[z];
        proof {
            lemma_permutation_below(self.perm_x@, x as int);
            lemma_permutation_below(self.perm_y@, y as int);
            lemma_permutation_below(self.perm_z@, z as int);
            assert((a ^ b) ^ c < 256) by (bit_vector)
                requires a < 256usize, b < 256usize, c < 256usize;
        }
        (a ^ b) ^ c
    }
}

/// Every entry of a permutation of `0..POINT_COUNT` is below `POINT_COUNT`.
proof fn lemma_permutation_below(s: Seq<usize>, m: int)
    requires
        is_permutation(s),
        0 <= m < s.len(),
    ensures
        s[m] < POINT_COUNT,
{
    assert(s.to_multiset().count(s[m]) > 0);
    assert(indices(POINT_COUNT as nat).contains(s[m]));
}

} // verus!
