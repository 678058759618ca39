use rand::rngs::StdRng;
use rand::SeedableRng;
use raytracer::{gen_perlin_permutation, PerlinLattice, POINT_COUNT};

#[test]
fn permutation_holds_each_point_once() {
    let mut rng = StdRng::seed_from_u64(21);
    let mut perm = gen_perlin_permutation(&mut rng);
    assert_eq!(perm.len(), POINT_COUNT);
    let shuffled = perm.clone();
    perm.sort();
    assert_eq!(perm, (0..POINT_COUNT).collect::<Vec<_>>());
    // A shuffle of 256 points that leaves them all in place is next to impossible.
    assert_ne!(shuffled, perm);
}

#[test]
fn same_seed_gives_same_lattice() {
    let a = PerlinLattice::with_rng(&mut StdRng::seed_from_u64(5));
    let b = PerlinLattice::with_rng(&mut StdRng::seed_from_u64(5));
    assert_eq!(a.perm_x, b.perm_x);
    assert_eq!(a.perm_y, b.perm_y);
    assert_eq!(a.perm_z, b.perm_z);
}

#[test]
fn corner_slot_hashes_the_wrapped_corner() {
    let lattice = PerlinLattice::with_rng(&mut StdRng::seed_from_u64(8));
    for &(i, j, k) in &[(0usize, 0usize, 0usize), (3, 200, 255), (255, 255, 255), (1000, 7, 513)] {
        for d in 0..8usize {
            let (di, dj, dk) = (d & 1, (d >> 1) & 1, (d >> 2) & 1);
            let slot = lattice.corner_slot(i, j, k, di, dj, dk);
            let expected = lattice.perm_x[(i + di) & 255]
                ^ lattice.perm_y[(j + dj) & 255]
                ^ lattice.perm_z[(k + dk) & 255];
            assert_eq!(slot, expected);
            assert!(slot < POINT_COUNT);
        }
    }
}
