use rand::rngs::StdRng;
use rand::{Rng, SeedableRng};
use raytracer::{scan_hit, Aabb, Bvh, Corner};

// A ray runs along x from 0; primitive `i` is a box on the x axis that the ray
// first meets at its least x.
fn scene(n: usize, seed: u64) -> Vec<Aabb> {
    let mut rng = StdRng::seed_from_u64(seed);
    (0..n)
        .map(|_| {
            let near: u64 = rng.gen_range(1, 1000);
            let size: u64 = rng.gen_range(1, 50);
            let y: u64 = rng.gen_range(0, 100);
            Aabb::new(Corner::new(near, y, y), Corner::new(near + size, y + size, y + size))
        })
        .collect()
}

fn nearest(boxes: &[Aabb], limit: u64) -> Option<u64> {
    boxes.iter().map(|b| b.min.x).filter(|&d| d < limit).min()
}

fn check(n: usize, seed: u64, limit: u64) {
    let boxes = scene(n, seed);
    let meets = |b: Aabb, bound: u64| b.min.x < bound;
    let reach = |i: usize, bound: u64| Some(boxes[i].min.x).filter(|&d| d < bound);
    let mut rng = StdRng::seed_from_u64(seed + 1);
    let bvh = Bvh::new(boxes.iter().map(|b| Some(*b)).collect(), &mut rng).unwrap();
    let through_tree = bvh.hit(&meets, &reach, limit);
    let through_scan = scan_hit(n, &reach, limit);
    let expected = nearest(&boxes, limit);
    assert_eq!(through_tree.map(|h| h.1), expected);
    assert_eq!(through_scan.map(|h| h.1), expected);
    if let Some((i, d)) = through_tree {
        assert_eq!(boxes[i].min.x, d);
    }
    if let Some((i, d)) = through_scan {
        assert_eq!(boxes[i].min.x, d);
    }
}

#[test]
fn hierarchy_and_scan_find_the_same_nearest_hit() {
    for (k, &n) in [1usize, 2, 10, 500].iter().enumerate() {
        for &limit in &[u64::MAX, 500, 1] {
            check(n, 100 + k as u64, limit);
        }
    }
}

#[test]
fn scan_keeps_the_last_hit_found() {
    let distances = [7u64, 3, 9, 3, 5];
    let reach = |i: usize, bound: u64| Some(distances[i]).filter(|&d| d < bound);
    assert_eq!(scan_hit(distances.len(), &reach, u64::MAX), Some((1, 3)));
    assert_eq!(scan_hit(distances.len(), &reach, 3), None);
    assert_eq!(scan_hit(0, &reach, u64::MAX), None);
}

#[test]
fn a_missed_root_box_prunes_everything() {
    let boxes = scene(10, 9);
    let mut rng = StdRng::seed_from_u64(3);
    let bvh = Bvh::new(boxes.iter().map(|b| Some(*b)).collect(), &mut rng).unwrap();
    let reach = |i: usize, _: u64| Some(boxes[i].min.x);
    assert_eq!(bvh.hit(&|_: Aabb, _: u64| false, &reach, u64::MAX), None);
}

#[test]
fn ties_go_to_the_right_subtree() {
    // Both primitives report the same distance, and a test that accepts a hit at
    // the bound itself lets the right child's equal hit replace the left one.
    let boxes = vec![
        Aabb::new(Corner::new(10, 0, 0), Corner::new(11, 1, 1)),
        Aabb::new(Corner::new(20, 5, 5), Corner::new(21, 6, 6)),
    ];
    let mut rng = StdRng::seed_from_u64(4);
    let bvh = Bvh::new(boxes.iter().map(|b| Some(*b)).collect(), &mut rng).unwrap();
    let reach = |_: usize, bound: u64| Some(5u64).filter(|&d| d <= bound);
    let hit = bvh.hit(&|_: Aabb, _: u64| true, &reach, u64::MAX);
    assert_eq!(hit, Some((bvh.leaves()[1], 5)));
    assert_eq!(bvh.leaves(), vec![0, 1]);
}
