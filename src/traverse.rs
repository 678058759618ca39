use vstd::prelude::*;

use crate::aabb::Aabb;
use crate::bvh::{indices, lemma_box_holds_every_leaf, Bvh, Node};

verus! {

/// The hit that a primitive test returned, paired with its primitive.
pub open spec fn tagged(i: usize, d: Option<u64>) -> Option<(usize, u64)> {
    match d {
        Some(t) => Some((i, t)),
        None => None,
    }
}

/// The distance bound after a hit: the hit's distance, or the old bound.
pub open spec fn bound_after(h: Option<(usize, u64)>, limit: u64) -> u64 {
    match h {
        Some(found) => found.1,
        None => limit,
    }
}

/// The distance of a hit that was found.
pub open spec fn distance_of(h: Option<(usize, u64)>) -> u64 {
    match h {
        Some(found) => found.1,
        None => 0,
    }
}

/// The box test gives one answer for each box and bound.
pub open spec fn box_test_is_function<FB: Fn(Aabb, u64) -> bool>(meets: FB) -> bool {
    forall|b: Aabb, u: u64, x: bool, y: bool|
        #![trigger call_ensures(meets, (b, u), x), call_ensures(meets, (b, u), y)]
        call_ensures(meets, (b, u), x) && call_ensures(meets, (b, u), y) ==> x == y
}

/// The primitive test gives one answer for each primitive and bound.
pub open spec fn hit_test_is_function<FL: Fn(usize, u64) -> Option<u64>>(reach: FL) -> bool {
    forall|i: usize, u: u64, x: Option<u64>, y: Option<u64>|
        #![trigger call_ensures(reach, (i, u), x), call_ensures(reach, (i, u), y)]
        call_ensures(reach, (i, u), x) && call_ensures(reach, (i, u), y) ==> x == y
}

/// Whether the ray meets box `b` before distance `limit`, as `meets` answers.
pub open spec fn box_answer<FB: Fn(Aabb, u64) -> bool>(meets: FB, b: Aabb, limit: u64) -> bool {
    choose|x: bool| call_ensures(meets, (b, limit), x)
}

/// The distance at which the ray meets primitive `i` before `limit`, as
/// `reach` answers.
pub open spec fn hit_answer<FL: Fn(usize, u64) -> Option<u64>>(reach: FL, i: usize, limit: u64) -> Option<u64> {
    choose|d: Option<u64>| call_ensures(reach, (i, limit), d)
}

/// What a traversal of `t` returns with distance bound `limit`, when `meets`
/// tests the ray against a box and `reach` against a primitive (distances are
/// order keys). A node whose box the ray misses yields nothing; a leaf yields
/// its primitive's hit; a branch searches its left child, then its right child
/// bounded by the left hit, and keeps the right hit when there is one.
pub open spec fn traversal<FB, FL>(t: Bvh, meets: FB, reach: FL, limit: u64) -> Option<(usize, u64)> where
    FB: Fn(Aabb, u64) -> bool,
    FL: Fn(usize, u64) -> Option<u64>,
    decreases t,
{
    if !box_answer(meets, t.bounding_box, limit) {
        None
    } else {
        match t.tree {
            Node::Leaf(i) => tagged(i, hit_answer(reach, i, limit)),
            Node::Branch { left, right } => {
                let hl = traversal(*left, meets, reach, limit);
                let hr = traversal(*right, meets, reach, bound_after(hl, limit));
                if hr is Some {
                    hr
                } else {
                    hl
                }
            },
        }
    }
}

/// What a scan over primitives `0..count` returns: each is tested in turn,
/// bounded by the last hit found, and a hit replaces the one kept so far.
pub open spec fn scan<FL>(reach: FL, count: nat, limit: u64) -> Option<(usize, u64)> where
    FL: Fn(usize, u64) -> Option<u64>,
    decreases count,
{
    if count == 0 {
        None
    } else {
        let prev = scan(reach, (count - 1) as nat, limit);
        let d = hit_answer(reach, (count - 1) as usize, bound_after(prev, limit));
        if d is Some {
            tagged((count - 1) as usize, d)
        } else {
            prev
        }
    }
}

impl Bvh {
    /// Traverses the hierarchy for the primitive hit nearest below `limit`, as
    /// found by `meets` and `reach`, pruning every node whose box is missed.
    pub fn hit<FB, FL>(&self, meets: &FB, reach: &FL, limit: u64) -> (r: Option<(usize, u64)>) where
        FB: Fn(Aabb, u64) -> bool,
        FL: Fn(usize, u64) -> Option<u64>,
        requires
            forall|b: Aabb, u: u64| call_requires(*meets, (b, u)),
            forall|i: usize, u: u64| call_requires(*reach, (i, u)),
            box_test_is_function(*meets),
            hit_test_is_function(*reach),
        ensures
            r == traversal(*self, *meets, *reach, limit),
        decreases self,
    {
        let inside = meets(self.bounding_box, limit);
        assert(inside == box_answer(*meets, self.bounding_box, limit));
        if !inside {
            return None;
        }
        match &self.tree {
            Node::Leaf(i) => {
                let d = reach(*i, limit);
                assert(d == hit_answer(*reach, *i, limit));
                match d {
                    Some(t) => Some((*i, t)),
                    None => None,
                }
            },
            Node::Branch { left, right } => {
                let hit_left = left.hit(meets, reach, limit);
                let bound = match hit_left {
                    Some(found) => found.1,
                    None => limit,
                };
                let hit_right = right.hit(meets, reach, bound);
                match hit_right {
                    Some(found) => Some(found),
                    None => hit_left,
                }
            },
        }
    }
}

/// Tests primitives `0..count` in turn, each bounded by the nearest hit so far,
/// and returns the last hit found.
pub fn scan_hit<FL>(count: usize, reach: &FL, limit: u64) -> (r: Option<(usize, u64)>) where
    FL: Fn(usize, u64) -> Option<u64>,
    requires
        forall|i: usize, u: u64| call_requires(*reach, (i, u)),
        hit_test_is_function(*reach),
    ensures
        r == scan(*reach, count as nat, limit),
{
    let mut closest: Option<(usize, u64)> = None;
    let mut bound = limit;
    let mut k: usize = 0;
    while k < count
        invariant
            k <= count,
            forall|i: usize, u: u64| call_requires(*reach, (i, u)),
            hit_test_is_function(*reach),
            closest == scan(*reach, k as nat, limit),
            bound == bound_after(closest, limit),
        decreases count - k,
    {
        let d = reach(k, bound);
        assert(d == hit_answer(*reach, k, bound));
        if let Some(t) = d {
            closest = Some((k, t));
            bound = t;
        }
        k = k + 1;
    }
    closest
}

/// Primitive `i` is met before distance `limit`, `dist` giving the distance at
/// which the ray first meets each primitive (past the near end of its range).
pub open spec fn closer(dist: spec_fn(usize) -> Option<u64>, i: usize, limit: u64) -> bool {
    dist(i) is Some && dist(i)->0 < limit
}

/// `r` is a nearest hit among primitives `s` before `limit`: nothing when none
/// is met before it, else one of them at the least distance.
pub open spec fn nearest_among(s: Seq<usize>, dist: spec_fn(usize) -> Option<u64>, limit: u64, r: Option<(usize, u64)>) -> bool {
    match r {
        None => forall|i: usize| #[trigger] s.contains(i) ==> !closer(dist, i, limit),
        Some(found) => {
            &&& s.contains(found.0)
            &&& dist(found.0) == Some(found.1)
            &&& found.1 < limit
            &&& forall|j: usize| #[trigger] s.contains(j) && closer(dist, j, limit) ==> found.1 <= dist(j)->0
        },
    }
}

/// The primitive test answers with the primitive's distance when it comes
/// before the bound, and with nothing otherwise.
pub open spec fn hit_test_follows<FL: Fn(usize, u64) -> Option<u64>>(reach: FL, dist: spec_fn(usize) -> Option<u64>) -> bool {
    forall|i: usize, u: u64| #[trigger] hit_answer(reach, i, u) == if closer(dist, i, u) { dist(i) } else { None }
}

/// The box test never misses a box that holds a primitive met before the bound.
pub open spec fn box_test_is_conservative<FB: Fn(Aabb, u64) -> bool>(meets: FB, boxes: Seq<Aabb>, dist: spec_fn(usize) -> Option<u64>) -> bool {
    forall|bx: Aabb, u: u64, i: usize|
        #![trigger box_answer(meets, bx, u), bx.contains(boxes[i as int]), closer(dist, i, u)]
        i < boxes.len() && bx.contains(boxes[i as int]) && closer(dist, i, u) ==> box_answer(meets, bx, u)
}

proof fn lemma_concat_contains(a: Seq<usize>, b: Seq<usize>, x: usize)
    ensures
        (a + b).contains(x) <==> a.contains(x) || b.contains(x),
{
    if (a + b).contains(x) {
        let k = choose|k: int| 0 <= k < (a + b).len() && (a + b)[k] == x;
        if k >= a.len() {
            assert(b[k - a.len()] == x);
        }
    }
    if a.contains(x) {
        let k = choose|k: int| 0 <= k < a.len() && a[k] == x;
        assert((a + b)[k] == x);
    }
    if b.contains(x) {
        let k = choose|k: int| 0 <= k < b.len() && b[k] == x;
        assert((a + b)[a.len() + k] == x);
    }
}

/// A traversal of a well-formed hierarchy finds a nearest hit among its
/// primitives, when the primitive test reports each primitive's distance and
/// the box test is conservative.
pub proof fn lemma_traversal_is_nearest<FB, FL>(
    t: Bvh,
    boxes: Seq<Aabb>,
    meets: FB,
    reach: FL,
    dist: spec_fn(usize) -> Option<u64>,
    limit: u64,
) where
    FB: Fn(Aabb, u64) -> bool,
    FL: Fn(usize, u64) -> Option<u64>,

    requires
        t.wf(boxes),
        hit_test_follows(reach, dist),
        box_test_is_conservative(meets, boxes, dist),
    ensures
        nearest_among(t.items(), dist, limit, traversal(t, meets, reach, limit)),
    decreases t,
{
    let r = traversal(t, meets, reach, limit);
    if !box_answer(meets, t.bounding_box, limit) {
        assert forall|i: usize| #[trigger] t.items().contains(i) implies !closer(dist, i, limit) by {
            lemma_box_holds_every_leaf(t, boxes, i);
        }
    } else {
        match t.tree {
            Node::Leaf(i) => {
                assert(hit_answer(reach, i, limit) == if closer(dist, i, limit) { dist(i) } else { None });
                assert(t.items() == seq![i]);
                assert forall|j: usize| #[trigger] t.items().contains(j) implies j == i by {
                    let k = choose|k: int| 0 <= k < t.items().len() && t.items()[k] == j;
                }
                assert(t.items()[0] == i);
            },
            Node::Branch { left, right } => {
                let hl = traversal(*left, meets, reach, limit);
                let bound = bound_after(hl, limit);
                let hr = traversal(*right, meets, reach, bound);
                lemma_traversal_is_nearest(*left, boxes, meets, reach, dist, limit);
                lemma_traversal_is_nearest(*right, boxes, meets, reach, dist, bound);
                assert(t.items() == left.items() + right.items());
                assert forall|j: usize| #[trigger] t.items().contains(j) <==> left.items().contains(j)
                    || right.items().contains(j) by {
                    lemma_concat_contains(left.items(), right.items(), j);
                }
                assert(bound <= limit);
            },
        }
    }
}

/// A scan finds a nearest hit among primitives `0..count`, when the primitive
/// test reports each primitive's distance.
pub proof fn lemma_scan_is_nearest<FL>(reach: FL, dist: spec_fn(usize) -> Option<u64>, count: nat, limit: u64) where
    FL: Fn(usize, u64) -> Option<u64>,

    requires
        count <= usize::MAX + 1,
        hit_test_follows(reach, dist),
    ensures
        nearest_among(indices(count), dist, limit, scan(reach, count, limit)),
    decreases count,
{
    if count == 0 {
        assert forall|i: usize| #[trigger] indices(0).contains(i) implies !closer(dist, i, limit) by {
            let k = choose|k: int| 0 <= k < indices(0).len() && indices(0)[k] == i;
        }
    } else {
        let n = (count - 1) as nat;
        let last = n as usize;
        let prev = scan(reach, n, limit);
        lemma_scan_is_nearest(reach, dist, n, limit);
        let bound = bound_after(prev, limit);
        assert(hit_answer(reach, last, bound) == if closer(dist, last, bound) { dist(last) } else { None });
        assert(indices(count) == indices(n).push(last));
        assert forall|j: usize| #[trigger] indices(count).contains(j) <==> indices(n).contains(j) || j == last by {
            if indices(count).contains(j) {
                let k = choose|k: int| 0 <= k < indices(count).len() && indices(count)[k] == j;
                if k < n {
                    assert(indices(n)[k] == j);
                }
            }
            if indices(n).contains(j) {
                let k = choose|k: int| 0 <= k < indices(n).len() && indices(n)[k] == j;
                assert(indices(count)[k] == j);
            }
            if j == last {
                assert(indices(count)[n as int] == j);
            }
        }
    }
}

/// A hierarchy and a plain scan over the same primitives agree: both find no
/// hit, or both find one at the same distance, the least at which the ray meets
/// any primitive before `limit`.
pub proof fn lemma_traversal_matches_scan<FB, FL>(
    t: Bvh,
    boxes: Seq<Aabb>,
    meets: FB,
    reach: FL,
    dist: spec_fn(usize) -> Option<u64>,
    limit: u64,
) where
    FB: Fn(Aabb, u64) -> bool,
    FL: Fn(usize, u64) -> Option<u64>,

    requires
        boxes.len() <= usize::MAX,
        t.wf(boxes),
        t.items().to_multiset() == indices(boxes.len()).to_multiset(),
        hit_test_follows(reach, dist),
        box_test_is_conservative(meets, boxes, dist),
    ensures
        traversal(t, meets, reach, limit) is None <==> scan(reach, boxes.len(), limit) is None,
        traversal(t, meets, reach, limit) is Some ==> distance_of(traversal(t, meets, reach, limit))
            == distance_of(scan(reach, boxes.len(), limit)),
{
    broadcast use vstd::seq_lib::group_to_multiset_ensures;

    let n = boxes.len();
    lemma_traversal_is_nearest(t, boxes, meets, reach, dist, limit);
    lemma_scan_is_nearest(reach, dist, n, limit);
    assert forall|i: usize| #[trigger] t.items().contains(i) <==> indices(n).contains(i) by {
        assert(t.items().contains(i) <==> t.items().to_multiset().count(i) > 0);
        assert(indices(n).contains(i) <==> indices(n).to_multiset().count(i) > 0);
    }
    let a = traversal(t, meets, reach, limit);
    let b = scan(reach, n, limit);
    if a is Some {
        let fa = a.unwrap();
        assert(indices(n).contains(fa.0));
        assert(closer(dist, fa.0, limit));
    }
    if b is Some {
        let fb = b.unwrap();
        assert(t.items().contains(fb.0));
        assert(closer(dist, fb.0, limit));
    }
}

} // verus!
