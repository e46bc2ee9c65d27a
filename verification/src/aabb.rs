//! Axis aligned boxes of integer points in the plane.

use crate::object::{
    joins_in_any_order, meets_more_when_merged, merges_freely, Envelope, RTreeObject,
};
use crate::selection_laws::{accepts_what_contains, keeps_what_it_contains, meeting};
use vstd::prelude::*;

verus! {

/// An axis aligned box, given by its lower and its upper corner.
#[derive(Debug, PartialEq, Eq)]
pub struct AABB<P> {
    pub(crate) lower: P,
    pub(crate) upper: P,
}

/// The smaller of two numbers.
pub open spec fn least(a: i32, b: i32) -> i32 {
    if a <= b {
        a
    } else {
        b
    }
}

/// The larger of two numbers.
pub open spec fn most(a: i32, b: i32) -> i32 {
    if a >= b {
        a
    } else {
        b
    }
}

/// Whether `x` lies between `a` and `b`, whichever of them is the smaller one.
pub open spec fn is_within(x: i32, a: i32, b: i32) -> bool {
    a <= x <= b || b <= x <= a
}

impl AABB<[i32; 2]> {
    /// Whether the box contains a point.
    pub open(crate) spec fn holds(self, point: [i32; 2]) -> bool {
        &&& self.lower[0] <= point[0] <= self.upper[0]
        &&& self.lower[1] <= point[1] <= self.upper[1]
    }

    /// Whether the box contains all points of another one.
    pub open spec fn encloses(self, other: Self) -> bool {
        forall|point: [i32; 2]| #[trigger] other.holds(point) ==> self.holds(point)
    }

    /// Whether the box contains any point.
    pub open spec fn is_inhabited(self) -> bool {
        exists|point: [i32; 2]| #[trigger] self.holds(point)
    }

    /// Whether the box contains any point, or is the one that every other one encloses.
    pub open spec fn is_proper(self) -> bool {
        self.is_inhabited() || self == Self::nothing()
    }

    /// The smallest box around two points.
    pub open(crate) spec fn between(p: [i32; 2], q: [i32; 2]) -> Self {
        AABB {
            lower: [least(p[0], q[0]), least(p[1], q[1])],
            upper: [most(p[0], q[0]), most(p[1], q[1])],
        }
    }

    /// Returns the smallest box around two points.
    pub fn from_corners(p1: [i32; 2], p2: [i32; 2]) -> (aabb: Self)
        ensures
            aabb == Self::between(p1, p2),
            forall|point: [i32; 2]| #[trigger]
                aabb.holds(point) <==> forall|k: int|
                    0 <= k < 2 ==> is_within(#[trigger] point@[k], p1@[k], p2@[k]),
    {
        proof {
            law_box_of_two_corners(p1, p2);
        }
        AABB {
            lower: [min(p1[0], p2[0]), min(p1[1], p2[1])],
            upper: [max(p1[0], p2[0]), max(p1[1], p2[1])],
        }
    }
}

fn min(a: i32, b: i32) -> (m: i32)
    ensures
        m == least(a, b),
{
    if a <= b {
        a
    } else {
        b
    }
}

fn max(a: i32, b: i32) -> (m: i32)
    ensures
        m == most(a, b),
{
    if a >= b {
        a
    } else {
        b
    }
}

impl Envelope for AABB<[i32; 2]> {
    open(crate) spec fn nothing() -> Self {
        AABB { lower: [i32::MAX, i32::MAX], upper: [i32::MIN, i32::MIN] }
    }

    open(crate) spec fn join(self, other: Self) -> Self {
        AABB {
            lower: [least(self.lower[0], other.lower[0]), least(self.lower[1], other.lower[1])],
            upper: [most(self.upper[0], other.upper[0]), most(self.upper[1], other.upper[1])],
        }
    }

    open(crate) spec fn meets(self, other: Self) -> bool {
        &&& self.lower[0] <= other.upper[0]
        &&& self.lower[1] <= other.upper[1]
        &&& other.lower[0] <= self.upper[0]
        &&& other.lower[1] <= self.upper[1]
    }

    fn new_empty() -> (envelope: Self)
        ensures
            !envelope.is_inhabited(),
    {
        AABB { lower: [i32::MAX, i32::MAX], upper: [i32::MIN, i32::MIN] }
    }

    fn merge(&mut self, other: &Self)
        ensures
            final(self).encloses(*old(self)),
            final(self).encloses(*other),
            old(self).is_inhabited() && other.is_inhabited() ==> forall|aabb: Self|
                aabb.encloses(*old(self)) && aabb.encloses(*other) ==> #[trigger] aabb.encloses(
                    *final(self),
                ),
    {
        proof {
            lemma_corners(*self);
            lemma_corners(*other);
        }
        self.lower = [min(self.lower[0], other.lower[0]), min(self.lower[1], other.lower[1])];
        self.upper = [max(self.upper[0], other.upper[0]), max(self.upper[1], other.upper[1])];
    }

    fn intersects(&self, other: &Self) -> (meets: bool)
        ensures
            self.is_inhabited() && other.is_inhabited() ==> meets == exists|point: [i32; 2]|
                #[trigger] self.holds(point) && other.holds(point),
    {
        proof {
            lemma_corners(*self);
            lemma_corners(*other);
            let point = [most(self.lower[0], other.lower[0]), most(self.lower[1], other.lower[1])];
            assert(self.lower[0] <= other.upper[0] && self.lower[1] <= other.upper[1]
                && other.lower[0] <= self.upper[0] && other.lower[1] <= self.upper[1]
                && self.is_inhabited() && other.is_inhabited() ==> self.holds(point)
                && other.holds(point));
        }
        self.lower[0] <= other.upper[0] && self.lower[1] <= other.upper[1] && other.lower[0]
            <= self.upper[0] && other.lower[1] <= self.upper[1]
    }
}

impl RTreeObject for [i32; 2] {
    type Envelope = AABB<[i32; 2]>;

    open spec fn bounds(self) -> AABB<[i32; 2]> {
        AABB::between(self, self)
    }

    fn envelope(&self) -> (envelope: AABB<[i32; 2]>)
        ensures
            forall|point: [i32; 2]| #[trigger] envelope.holds(point) <==> point == *self,
    {
        proof {
            lemma_one_point(*self);
        }
        AABB::from_corners(*self, *self)
    }
}

/// The box around two corners contains exactly the points whose every coordinate lies between those
/// of the corners, in whatever order and position these are given. It contains both of them and is
/// enclosed by each box that does.
pub proof fn law_box_of_two_corners(p: [i32; 2], q: [i32; 2])
    ensures
        forall|point: [i32; 2]| #[trigger]
            AABB::between(p, q).holds(point) <==> forall|k: int|
                0 <= k < 2 ==> is_within(#[trigger] point@[k], p@[k], q@[k]),
        AABB::between(p, q).holds(p),
        AABB::between(p, q).holds(q),
        AABB::between(q, p) == AABB::between(p, q),
        forall|aabb: AABB<[i32; 2]>|
            aabb.holds(p) && aabb.holds(q) ==> #[trigger] aabb.encloses(AABB::between(p, q)),
{
}

proof fn lemma_one_point(p: [i32; 2])
    ensures
        forall|point: [i32; 2]| #[trigger] AABB::between(p, p).holds(point) <==> point == p,
{
    assert forall|point: [i32; 2]| #[trigger] AABB::between(p, p).holds(point) implies point
        == p by {
        assert(point =~= p);
    }
}

/// The box of a point contains that point and no other.
pub proof fn law_box_of_a_point(p: [i32; 2])
    ensures
        forall|point: [i32; 2]| #[trigger] p.bounds().holds(point) <==> point == p,
{
    lemma_one_point(p);
}

proof fn lemma_corners(aabb: AABB<[i32; 2]>)
    ensures
        aabb.is_inhabited() <==> aabb.lower[0] <= aabb.upper[0] && aabb.lower[1] <= aabb.upper[1],
        aabb.is_inhabited() ==> aabb.holds(aabb.lower) && aabb.holds(aabb.upper),
{
    if aabb.lower[0] <= aabb.upper[0] && aabb.lower[1] <= aabb.upper[1] {
        assert(aabb.holds(aabb.lower));
    }
}

/// Two boxes that contain points meet if and only if some point is in both. A box meets that of a
/// point, and is met by it, if and only if it contains the point.
pub proof fn law_boxes_meet_in_a_point(a: AABB<[i32; 2]>, b: AABB<[i32; 2]>)
    ensures
        a.is_inhabited() && b.is_inhabited() ==> a.meets(b) == exists|point: [i32; 2]|
            #[trigger] a.holds(point) && b.holds(point),
        forall|point: [i32; 2]| #![trigger a.holds(point)]
            point.bounds().meets(a) == a.holds(point) && a.meets(point.bounds()) == a.holds(
                point,
            ),
{
    lemma_corners(a);
    lemma_corners(b);
    if a.is_inhabited() && b.is_inhabited() && a.meets(b) {
        let point = [most(a.lower[0], b.lower[0]), most(a.lower[1], b.lower[1])];
        assert(a.holds(point) && b.holds(point));
    }
}

/// The join of two boxes is the smallest box around both.
pub proof fn law_join_is_the_smallest_box_around_both(a: AABB<[i32; 2]>, b: AABB<[i32; 2]>)
    ensures
        a.join(b).encloses(a),
        a.join(b).encloses(b),
        a.is_proper() && b.is_proper() ==> a.join(b).is_proper(),
        a.is_proper() && b.is_proper() ==> forall|aabb: AABB<[i32; 2]>|
            aabb.encloses(a) && aabb.encloses(b) ==> #[trigger] aabb.encloses(a.join(b)),
        !AABB::<[i32; 2]>::nothing().is_inhabited(),
{
    let joined = a.join(b);
    lemma_corners(a);
    lemma_corners(b);
    lemma_corners(joined);
    lemma_corners(AABB::nothing());
    law_boxes_merge_freely();
}

/// The box around a set of points is the same whichever order they are merged in.
pub proof fn law_boxes_join_in_any_order()
    ensures
        joins_in_any_order::<AABB<[i32; 2]>>(),
{
}

/// The box around a set of points is the same however often the empty box is merged in.
pub proof fn law_boxes_merge_freely()
    ensures
        merges_freely::<AABB<[i32; 2]>>(),
{
    assert forall|a: AABB<[i32; 2]>| #[trigger] a.join(AABB::nothing()) == a by {
        let joined = a.join(AABB::nothing());
        assert(joined.lower =~= a.lower);
        assert(joined.upper =~= a.upper);
    }
}

/// Two boxes meet each other, and go on to do so when more is merged into one of them.
pub proof fn law_boxes_meet_more_when_merged()
    ensures
        meets_more_when_merged::<AABB<[i32; 2]>>(),
{
}

/// A box keeps the points that it contains when it is merged, and meets each box that has one of
/// them.
pub proof fn law_boxes_keep_what_they_contain(region: AABB<[i32; 2]>)
    ensures
        keeps_what_it_contains(|aabb: AABB<[i32; 2]>, point: [i32; 2]| aabb.holds(point)),
        accepts_what_contains(
            meeting(region),
            |aabb: AABB<[i32; 2]>, point: [i32; 2]| aabb.holds(point),
        ),
{
}

} // verus!
