use rand::rngs::StdRng;
use vstd::multiset::Multiset;
use vstd::prelude::*;

use crate::aabb::{lemma_surrounding_box_is_tightest, surrounding_box, Aabb};
use crate::sampling::{pair_le, pairs_sorted, random_below, random_seed, seeded_rng, sort_pairs};

verus! {

broadcast use vstd::seq_lib::group_to_multiset_ensures;

/// From this many primitives on, the two halves of a node are built in parallel.
pub const MAX_SEQUENTIAL: usize = 250;

/// Why a hierarchy could not be built.
#[derive(Clone, Copy, Debug, PartialEq, Eq, Structural)]
pub enum BvhError {
    /// No primitive was given.
    EmptyScene,
    /// Some primitive has no bounding box.
    MissingBoundingBox,
}

#[derive(Debug)]
pub enum Node {
    Branch { left: Box<Bvh>, right: Box<Bvh> },
    /// The index of one primitive.
    Leaf(usize),
}

/// A bounding-volume hierarchy over primitives named by their indices.
#[derive(Debug)]
pub struct Bvh {
    pub tree: Node,
    pub bounding_box: Aabb,
}

/// The indices `0..n` in order.
pub open spec fn indices(n: nat) -> Seq<usize> {
    Seq::new(n, |i: int| i as usize)
}

/// Along some axis, no primitive of `left` has a box whose least coordinate
/// exceeds that of a primitive of `right`.
pub open spec fn split_on_some_axis(left: Seq<usize>, right: Seq<usize>, boxes: Seq<Aabb>) -> bool {
    exists|axis: int| 0 <= axis < 3 && #[trigger] ordered_along(left, right, boxes, axis)
}

pub open spec fn ordered_along(left: Seq<usize>, right: Seq<usize>, boxes: Seq<Aabb>, axis: int) -> bool {
    forall|l: usize, r: usize|
        #![trigger left.contains(l), right.contains(r)]
        left.contains(l) && right.contains(r) ==> boxes[l as int].min.coord(axis)
            <= boxes[r as int].min.coord(axis)
}

/// The second component of each pair.
pub open spec fn seconds(s: Seq<(u64, usize)>) -> Seq<usize> {
    s.map_values(|p: (u64, usize)| p.1)
}

/// The boxes of a list where every entry is present.
pub open spec fn present_boxes(boxes: Seq<Option<Aabb>>) -> Seq<Aabb> {
    boxes.map_values(|b: Option<Aabb>| b.unwrap())
}

pub open spec fn all_present(boxes: Seq<Option<Aabb>>) -> bool {
    forall|i: int| 0 <= i < boxes.len() ==> (#[trigger] boxes[i]).is_some()
}

impl Bvh {
    /// The primitives at the leaves, from left to right.
    pub open spec fn items(self) -> Seq<usize>
        decreases self,
    {
        match self.tree {
            Node::Leaf(i) => seq![i],
            Node::Branch { left, right } => left.items() + right.items(),
        }
    }

    /// Each leaf carries its primitive's box, each branch the box spanning its
    /// children's, and each branch splits its primitives by count, the left
    /// child taking the smaller half.
    pub open spec fn wf(self, boxes: Seq<Aabb>) -> bool
        decreases self,
    {
        match self.tree {
            Node::Leaf(i) => i < boxes.len() && self.bounding_box == boxes[i as int],
            Node::Branch { left, right } => {
                &&& left.wf(boxes)
                &&& right.wf(boxes)
                &&& self.bounding_box == left.bounding_box.spanning(right.bounding_box)
                &&& left.items().len() == (left.items().len() + right.items().len()) / 2
                &&& split_on_some_axis(left.items(), right.items(), boxes)
            },
        }
    }

    /// Builds the hierarchy over the primitives whose boxes are given, in that
    /// order, primitive `i` having box `boxes[i]` (`None` where it has none).
    /// Each node sorts its primitives along an axis drawn from `rng` and hands
    /// the lower half to its left child, the upper half to its right child.
    pub fn new(boxes: Vec<Option<Aabb>>, rng: &mut StdRng) -> (r: Result<Bvh, BvhError>)
        ensures
            r == Err::<Bvh, BvhError>(BvhError::EmptyScene) <==> boxes.len() == 0,
            r == Err::<Bvh, BvhError>(BvhError::MissingBoundingBox) <==> boxes.len() > 0
                && !all_present(boxes@),
            r is Ok ==> {
                &&& all_present(boxes@)
                &&& r->Ok_0.wf(present_boxes(boxes@))
                &&& r->Ok_0.items().to_multiset() == indices(boxes.len() as nat).to_multiset()
            },
    {
        if boxes.len() == 0 {
            return Err(BvhError::EmptyScene);
        }
        let mut known: Vec<Aabb> = Vec::new();
        let mut items: Vec<usize> = Vec::new();
        let mut k: usize = 0;
        while k < boxes.len()
            invariant
                k <= boxes.len(),
                known.len() == k,
                items@ == indices(k as nat),
                forall|m: int| 0 <= m < k ==> (#[trigger] boxes@[m]).is_some(),
                forall|m: int| 0 <= m < k ==> known@[m] == (#[trigger] boxes@[m]).unwrap(),
            decreases boxes.len() - k,
        {
            match boxes[k] {
                Some(b) => {
                    known.push(b);
                    items.push(k);
                },
                None => {
                    return Err(BvhError::MissingBoundingBox);
                },
            }
            k = k + 1;
            assert(items@ =~= indices(k as nat));
        }
        assert(known@ =~= present_boxes(boxes@));
        Ok(Bvh::build(items, &known, rng))
    }

    /// The primitives at the leaves, from left to right.
    pub fn leaves(&self) -> (r: Vec<usize>)
        ensures
            r@ == self.items(),
        decreases self,
    {
        match &self.tree {
            Node::Leaf(i) => {
                let mut r: Vec<usize> = Vec::new();
                r.push(*i);
                assert(r@ =~= seq![*i]);
                r
            },
            Node::Branch { left, right } => {
                let mut r = left.leaves();
                let mut tail = right.leaves();
                r.append(&mut tail);
                r
            },
        }
    }

    /// The box that holds every primitive of the hierarchy.
    pub fn bounding_box(&self) -> (r: Aabb)
        ensures
            r == self.bounding_box,
    {
        self.bounding_box
    }

    fn build(items: Vec<usize>, boxes: &Vec<Aabb>, rng: &mut StdRng) -> (r: Bvh)
        requires
            items.len() > 0,
            forall|k: int| 0 <= k < items.len() ==> #[trigger] items@[k] < boxes.len(),
        ensures
            r.wf(boxes@),
            r.items().to_multiset() == items@.to_multiset(),
        decreases items.len(),
    {
        // Order the primitives by the least coordinate of their boxes along an
        // axis drawn at random.
        let axis = random_below(rng, 3);
        let mut keyed: Vec<(u64, usize)> = Vec::new();
        let mut k: usize = 0;
        while k < items.len()
            invariant
                k <= items.len(),
                axis < 3,
                keyed.len() == k,
                forall|m: int| 0 <= m < items.len() ==> #[trigger] items@[m] < boxes.len(),
                forall|m: int| 0 <= m < k ==> (#[trigger] keyed@[m]).1 == items@[m],
                forall|m: int| 0 <= m < k ==> (#[trigger] keyed@[m]).0 == boxes@[items@[m] as int].min.coord(axis as int),
            decreases items.len() - k,
        {
            keyed.push((boxes[items[k]].min.get(axis), items[k]));
            k = k + 1;
        }
        assert(seconds(keyed@) =~= items@);
        let ghost unsorted = keyed@;
        sort_pairs(&mut keyed);
        proof {
            assert forall|m: int| 0 <= m < keyed.len() implies (#[trigger] keyed@[m]).0
                == boxes@[keyed@[m].1 as int].min.coord(axis as int) by {
                assert(keyed@.to_multiset().count(keyed@[m]) > 0);
                assert(unsorted.contains(keyed@[m]));
            }
            lemma_seconds_permutation(unsorted, keyed@);
            unsorted.to_multiset_ensures();
            keyed@.to_multiset_ensures();
            assert(keyed@.len() == unsorted.len());
        }
        let n = keyed.len();
        if n == 1 {
            let i = keyed[0].1;
            assert(seconds(keyed@) =~= seq![i]);
            assert(seconds(keyed@).to_multiset().count(i) > 0);
            assert(items@.contains(i));
            return Bvh { tree: Node::Leaf(i), bounding_box: boxes[i] };
        }
        // The lower half by that order goes left, the upper half right.
        let half = n / 2;
        let mut lower: Vec<usize> = Vec::new();
        let mut upper: Vec<usize> = Vec::new();
        let mut k: usize = 0;
        while k < n
            invariant
                n == keyed.len(),
                half == n / 2,
                k <= n,
                k <= half ==> lower@ == seconds(keyed@).subrange(0, k as int) && upper@.len()
                    == 0,
                k > half ==> lower@ == seconds(keyed@).subrange(0, half as int) && upper@
                    == seconds(keyed@).subrange(half as int, k as int),
            decreases n - k,
        {
            if k < half {
                lower.push(keyed[k].1);
            } else {
                upper.push(keyed[k].1);
            }
            k = k + 1;
            assert(lower@ =~= seconds(keyed@).subrange(0, if k <= half { k as int } else { half as int }));
            if k > half {
                assert(upper@ =~= seconds(keyed@).subrange(half as int, k as int));
            }
        }
        proof {
            assert(lower@.len() == half && upper@.len() == n - half);
            assert(seconds(keyed@) =~= lower@ + upper@);
            vstd::seq_lib::lemma_multiset_commutative(lower@, upper@);
            assert forall|m: int| 0 <= m < lower.len() implies #[trigger] lower@[m]
                < boxes.len() by {
                assert(lower@[m] == seconds(keyed@)[m]);
                assert(seconds(keyed@).to_multiset().count(lower@[m]) > 0);
                assert(items@.contains(lower@[m]));
            }
            assert forall|m: int| 0 <= m < upper.len() implies #[trigger] upper@[m]
                < boxes.len() by {
                assert(upper@[m] == seconds(keyed@)[half + m]);
                assert(seconds(keyed@).to_multiset().count(upper@[m]) > 0);
                assert(items@.contains(upper@[m]));
            }
        }
        let (right, left) = if n < MAX_SEQUENTIAL {
            let right = Bvh::build(upper, boxes, rng);
            let left = Bvh::build(lower, boxes, rng);
            (right, left)
        } else {
            let forked = seeded_rng(random_seed(rng));
            build_both(upper, lower, boxes, rng, forked)
        };
        proof {
            vstd::seq_lib::lemma_multiset_commutative(left.items(), right.items());
            assert forall|l: usize, r: usize|
                #![trigger left.items().contains(l), right.items().contains(r)]
                left.items().contains(l) && right.items().contains(r) implies boxes@[l as int].min.coord(axis as int)
                    <= boxes@[r as int].min.coord(axis as int) by {
                assert(left.items().to_multiset().count(l) > 0);
                assert(right.items().to_multiset().count(r) > 0);
                let m1 = choose|m1: int| 0 <= m1 < lower.len() && lower@[m1] == l;
                let m2 = choose|m2: int| 0 <= m2 < upper.len() && upper@[m2] == r;
                assert(keyed@[m1].1 == l);
                assert(keyed@[half + m2].1 == r);
                assert(pair_le(keyed@[m1], keyed@[half + m2]));
            }
            assert(ordered_along(left.items(), right.items(), boxes@, axis as int));
            left.items().to_multiset_ensures();
            right.items().to_multiset_ensures();
        }
        Bvh {
            bounding_box: surrounding_box(left.bounding_box, right.bounding_box),
            tree: Node::Branch { left: Box::new(left), right: Box::new(right) },
        }
    }
}

/// Relies on `rayon::join`: it runs both closures, possibly at once, and returns
/// both results (the first closure's first). Each closure builds one half with a
/// generator of its own.
#[verifier::external_body]
fn build_both(
    upper: Vec<usize>,
    lower: Vec<usize>,
    boxes: &Vec<Aabb>,
    rng: &mut StdRng,
    mut forked: StdRng,
) -> (r: (Bvh, Bvh))
    requires
        upper.len() > 0,
        lower.len() > 0,
        forall|k: int| 0 <= k < upper.len() ==> #[trigger] upper@[k] < boxes.len(),
        forall|k: int| 0 <= k < lower.len() ==> #[trigger] lower@[k] < boxes.len(),
    ensures
        r.0.wf(boxes@),
        r.0.items().to_multiset() == upper@.to_multiset(),
        r.1.wf(boxes@),
        r.1.items().to_multiset() == lower@.to_multiset(),
{
    rayon::join(move || Bvh::build(upper, boxes, rng), move || Bvh::build(lower, boxes, &mut forked))
}

/// A node's box holds the box of every primitive below it, so a ray that
/// misses the box misses all of them.
pub proof fn lemma_box_holds_every_leaf(t: Bvh, boxes: Seq<Aabb>, i: usize)
    requires
        t.wf(boxes),
        t.items().contains(i),
    ensures
        i < boxes.len(),
        t.bounding_box.contains(boxes[i as int]),
    decreases t,
{
    match t.tree {
        Node::Leaf(j) => {
            assert(t.items()[0] == i);
        },
        Node::Branch { left, right } => {
            lemma_surrounding_box_is_tightest(left.bounding_box, right.bounding_box, t.bounding_box);
            let k = choose|k: int| 0 <= k < t.items().len() && t.items()[k] == i;
            if k < left.items().len() {
                assert(left.items()[k] == i);
                lemma_box_holds_every_leaf(*left, boxes, i);
            } else {
                assert(right.items()[k - left.items().len()] == i);
                lemma_box_holds_every_leaf(*right, boxes, i);
            }
        },
    }
}

spec fn gather(m: Multiset<usize>, p: (u64, usize)) -> Multiset<usize> {
    m.insert(p.1)
}

proof fn lemma_seconds_fold(s: Seq<(u64, usize)>)
    ensures
        seconds(s).to_multiset() == s.fold_left(Multiset::empty(), |m: Multiset<usize>, p: (u64, usize)| gather(m, p)),
    decreases s.len(),
{
    broadcast use vstd::seq_lib::group_to_multiset_ensures;

    if s.len() > 0 {
        lemma_seconds_fold(s.drop_last());
        assert(seconds(s) =~= seconds(s.drop_last()).push(s.last().1));
    } else {
        assert(seconds(s) =~= Seq::<usize>::empty());
    }
}

/// Reordering pairs reorders their second components alike.
proof fn lemma_seconds_permutation(s1: Seq<(u64, usize)>, s2: Seq<(u64, usize)>)
    requires
        s1.to_multiset() == s2.to_multiset(),
    ensures
        seconds(s1).to_multiset() == seconds(s2).to_multiset(),
{
    let f = |m: Multiset<usize>, p: (u64, usize)| gather(m, p);
    assert forall|x: (u64, usize), y: (u64, usize), v: Multiset<usize>| #[trigger] f(f(v, x), y)
        == f(f(v, y), x) by {
        assert(v.insert(x.1).insert(y.1) =~= v.insert(y.1).insert(x.1));
    }
    vstd::seq_lib::lemma_fold_left_permutation(s1, s2, f, Multiset::empty());
    lemma_seconds_fold(s1);
    lemma_seconds_fold(s2);
}

} // verus!
