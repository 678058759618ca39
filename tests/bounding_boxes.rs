use raytracer::{surrounding_box, Aabb, Corner};

fn cube(lo: u64, hi: u64) -> Aabb {
    Aabb::new(Corner::new(lo, lo, lo), Corner::new(hi, hi, hi))
}

#[test]
fn surrounding_box_takes_min_of_mins_and_max_of_maxes() {
    let a = Aabb::new(Corner::new(1, 5, 9), Corner::new(4, 8, 12));
    let b = Aabb::new(Corner::new(2, 3, 10), Corner::new(3, 9, 11));
    let s = surrounding_box(a, b);
    assert_eq!(s.min, Corner::new(1, 3, 9));
    assert_eq!(s.max, Corner::new(4, 9, 12));
}

#[test]
fn surrounding_box_is_symmetric_and_associative() {
    let a = cube(1, 2);
    let b = Aabb::new(Corner::new(0, 7, 3), Corner::new(5, 8, 4));
    let c = cube(6, 20);
    assert_eq!(surrounding_box(a, b), surrounding_box(b, a));
    assert_eq!(
        surrounding_box(surrounding_box(a, b), c),
        surrounding_box(a, surrounding_box(b, c))
    );
}

#[test]
fn surrounding_box_of_nested_boxes_is_the_outer_one() {
    let outer = cube(0, 100);
    let inner = cube(10, 20);
    assert_eq!(surrounding_box(outer, inner), outer);
    assert_eq!(surrounding_box(inner, inner), inner);
}

#[test]
fn corner_reads_each_axis() {
    let c = Corner::new(4, 2, 5);
    assert_eq!(c.get(0), 4);
    assert_eq!(c.get(1), 2);
    assert_eq!(c.get(2), 5);
}
