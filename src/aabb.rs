use vstd::prelude::*;

verus! {

/// A point whose coordinates are order keys.
#[derive(Clone, Copy, Debug, PartialEq, Eq, Structural)]
pub struct Corner {
    pub x: u64,
    pub y: u64,
    pub z: u64,
}

impl Corner {
    /// The coordinate along `axis` (0 is x, 1 is y, 2 is z).
    pub open spec fn coord(self, axis: int) -> u64 {
        if axis == 0 {
            self.x
        } else if axis == 1 {
            self.y
        } else {
            self.z
        }
    }

    pub fn new(x: u64, y: u64, z: u64) -> (r: Corner)
        ensures
            r == (Corner { x, y, z }),
    {
        Corner { x, y, z }
    }

    pub fn get(&self, axis: usize) -> (r: u64)
        requires
            axis < 3,
        ensures
            r == self.coord(axis as int),
    {
        if axis == 0 {
            self.x
        } else if axis == 1 {
            self.y
        } else {
            self.z
        }
    }
}

/// An axis-aligned box given by its two extreme corners.
#[derive(Clone, Copy, Debug, PartialEq, Eq, Structural)]
pub struct Aabb {
    pub min: Corner,
    pub max: Corner,
}

pub open spec fn min_key(a: u64, b: u64) -> u64 {
    if a <= b {
        a
    } else {
        b
    }
}

pub open spec fn max_key(a: u64, b: u64) -> u64 {
    if a >= b {
        a
    } else {
        b
    }
}

impl Aabb {
    /// Every axis spans a non-empty interval.
    pub open spec fn wf(self) -> bool {
        forall|axis: int| 0 <= axis < 3 ==> self.min.coord(axis) <= self.max.coord(axis)
    }

    /// `other` lies inside this box on every axis.
    pub open spec fn contains(self, other: Aabb) -> bool {
        forall|axis: int|
            0 <= axis < 3 ==> self.min.coord(axis) <= other.min.coord(axis) && other.max.coord(
                axis,
            ) <= self.max.coord(axis)
    }

    /// The box that spans both boxes: the least of the minima and the greatest
    /// of the maxima on every axis.
    pub open spec fn spanning(self, other: Aabb) -> Aabb {
        Aabb {
            min: Corner {
                x: min_key(self.min.x, other.min.x),
                y: min_key(self.min.y, other.min.y),
                z: min_key(self.min.z, other.min.z),
            },
            max: Corner {
                x: max_key(self.max.x, other.max.x),
                y: max_key(self.max.y, other.max.y),
                z: max_key(self.max.z, other.max.z),
            },
        }
    }

    pub fn new(min: Corner, max: Corner) -> (r: Aabb)
        ensures
            r == (Aabb { min, max }),
    {
        Aabb { min, max }
    }
}

fn smaller(a: u64, b: u64) -> (r: u64)
    ensures
        r == min_key(a, b),
{
    if a <= b {
        a
    } else {
        b
    }
}

fn larger(a: u64, b: u64) -> (r: u64)
    ensures
        r == max_key(a, b),
{
    if a >= b {
        a
    } else {
        b
    }
}

/// The tightest box that holds both boxes.
pub fn surrounding_box(first: Aabb, second: Aabb) -> (r: Aabb)
    ensures
        r == first.spanning(second),
{
    let small = Corner::new(
        smaller(first.min.x, second.min.x),
        smaller(first.min.y, second.min.y),
        smaller(first.min.z, second.min.z),
    );
    let large = Corner::new(
        larger(first.max.x, second.max.x),
        larger(first.max.y, second.max.y),
        larger(first.max.z, second.max.z),
    );
    Aabb::new(small, large)
}

/// The surrounding box of two boxes holds both of them, and any box that holds
/// both holds it as well: it is the smallest such box.
pub proof fn lemma_surrounding_box_is_tightest(a: Aabb, b: Aabb, c: Aabb)
    ensures
        a.spanning(b).contains(a),
        a.spanning(b).contains(b),
        c.contains(a) && c.contains(b) ==> c.contains(a.spanning(b)),
        a.wf() && b.wf() ==> a.spanning(b).wf(),
{
    if a.wf() && b.wf() {
        assert(a.min.coord(0) <= a.max.coord(0) && b.min.coord(0) <= b.max.coord(0));
        assert(a.min.coord(1) <= a.max.coord(1) && b.min.coord(1) <= b.max.coord(1));
        assert(a.min.coord(2) <= a.max.coord(2) && b.min.coord(2) <= b.max.coord(2));
    }
}

/// Spanning does not depend on the order of its two boxes, nor on how three
/// boxes are grouped.
pub proof fn lemma_spanning_commutative_associative(a: Aabb, b: Aabb, c: Aabb)
    ensures
        a.spanning(b) == b.spanning(a),
        a.spanning(b).spanning(c) == a.spanning(b.spanning(c)),
{
}

} // verus!
