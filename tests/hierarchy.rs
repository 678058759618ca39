use rand::rngs::StdRng;
use rand::SeedableRng;
use raytracer::{surrounding_box, Aabb, Bvh, BvhError, Corner, Node};

fn unit_box(at: u64) -> Aabb {
    Aabb::new(Corner::new(at, at, at), Corner::new(at + 1, at + 1, at + 1))
}

fn check_node(t: &Bvh, boxes: &[Aabb]) -> usize {
    match &t.tree {
        Node::Leaf(i) => {
            assert_eq!(t.bounding_box, boxes[*i]);
            1
        }
        Node::Branch { left, right } => {
            let l = check_node(left, boxes);
            let r = check_node(right, boxes);
            assert_eq!(l, (l + r) / 2);
            assert_eq!(t.bounding_box, surrounding_box(left.bounding_box, right.bounding_box));
            let (lower, upper) = (left.leaves(), right.leaves());
            assert!((0..3).any(|axis| {
                lower.iter().all(|&a| {
                    upper.iter().all(|&b| boxes[a].min.get(axis) <= boxes[b].min.get(axis))
                })
            }));
            l + r
        }
    }
}

fn build_and_check(n: u64, seed: u64) {
    let boxes: Vec<Aabb> = (0..n).map(|i| unit_box((i * 37) % 101)).collect();
    let mut rng = StdRng::seed_from_u64(seed);
    let bvh = Bvh::new(boxes.iter().map(|b| Some(*b)).collect(), &mut rng).unwrap();
    assert_eq!(check_node(&bvh, &boxes), n as usize);
    let mut leaves = bvh.leaves();
    leaves.sort();
    assert_eq!(leaves, (0..n as usize).collect::<Vec<_>>());
    let union = boxes.iter().skip(1).fold(boxes[0], |acc, b| surrounding_box(acc, *b));
    assert_eq!(bvh.bounding_box(), union);
}

#[test]
fn empty_scene_is_refused() {
    let mut rng = StdRng::seed_from_u64(1);
    assert_eq!(Bvh::new(Vec::new(), &mut rng).unwrap_err(), BvhError::EmptyScene);
}

#[test]
fn primitive_without_box_is_refused() {
    let mut rng = StdRng::seed_from_u64(1);
    let boxes = vec![Some(unit_box(0)), None, Some(unit_box(3))];
    assert_eq!(Bvh::new(boxes, &mut rng).unwrap_err(), BvhError::MissingBoundingBox);
    let mut rng = StdRng::seed_from_u64(1);
    assert_eq!(Bvh::new(vec![None], &mut rng).unwrap_err(), BvhError::MissingBoundingBox);
}

#[test]
fn single_primitive_is_a_leaf() {
    let mut rng = StdRng::seed_from_u64(2);
    let b = unit_box(4);
    let bvh = Bvh::new(vec![Some(b)], &mut rng).unwrap();
    assert!(matches!(bvh.tree, Node::Leaf(0)));
    assert_eq!(bvh.bounding_box, b);
}

#[test]
fn hierarchies_of_several_sizes_are_well_formed() {
    for (n, seed) in [(1, 3), (2, 4), (10, 5), (500, 6)] {
        build_and_check(n, seed);
    }
}

#[test]
fn leaves_come_out_sorted_by_position() {
    // Every axis orders these boxes the same way, the reverse of their indices,
    // so whichever axes are drawn the leaves run from the last index down.
    let n = 9;
    let boxes: Vec<Option<Aabb>> = (0..n).map(|i| Some(unit_box(10 * (n - i)))).collect();
    let mut rng = StdRng::seed_from_u64(11);
    let bvh = Bvh::new(boxes, &mut rng).unwrap();
    assert_eq!(bvh.leaves(), (0..n as usize).rev().collect::<Vec<_>>());
}

#[test]
fn root_box_spans_scene() {
    let boxes = vec![
        Some(Aabb::new(Corner::new(5, 0, 2), Corner::new(6, 1, 3))),
        Some(Aabb::new(Corner::new(1, 9, 4), Corner::new(2, 10, 8))),
    ];
    let mut rng = StdRng::seed_from_u64(12);
    let bvh = Bvh::new(boxes, &mut rng).unwrap();
    assert_eq!(bvh.bounding_box(), Aabb::new(Corner::new(1, 0, 2), Corner::new(6, 10, 8)));
}
