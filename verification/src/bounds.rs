//! Axis-aligned boxes around points.

use vstd::prelude::*;
use crate::single::{lemma_infinities_are_extreme, lemma_order_is_numeric};
use crate::single::{Single, ONE_BITS};

verus! {

/// A point or a vector.
#[derive(Clone, Copy, Debug, PartialEq, Eq, Structural)]
pub struct Vec3 {
    pub x: Single,
    pub y: Single,
    pub z: Single,
}

/// An axis-aligned box, by its least and its greatest corner.
#[derive(Clone, Copy, Debug, PartialEq, Eq, Structural)]
pub struct Bounds {
    pub min: Vec3,
    pub max: Vec3,
}

impl Vec3 {
    /// The componentwise minimum.
    pub open spec fn lower(self, other: Vec3) -> Vec3 {
        Vec3 { x: self.x.smaller(other.x), y: self.y.smaller(other.y), z: self.z.smaller(other.z) }
    }

    /// The componentwise maximum.
    pub open spec fn upper(self, other: Vec3) -> Vec3 {
        Vec3 { x: self.x.larger(other.x), y: self.y.larger(other.y), z: self.z.larger(other.z) }
    }

    /// The coordinate along axis 0, 1 or 2.
    pub open spec fn axis(self, a: int) -> Single {
        if a == 0 {
            self.x
        } else if a == 1 {
            self.y
        } else {
            self.z
        }
    }

    /// The same coordinate three times.
    pub fn splat(v: Single) -> (r: Vec3)
        ensures
            r == (Vec3 { x: v, y: v, z: v }),
    {
        Vec3 { x: v, y: v, z: v }
    }

    /// The componentwise minimum.
    pub fn min(self, other: Vec3) -> (r: Vec3)
        ensures
            r == self.lower(other),
            r.x == self.x.smaller(other.x),
            r.y == self.y.smaller(other.y),
            r.z == self.z.smaller(other.z),
    {
        Vec3 { x: self.x.min(other.x), y: self.y.min(other.y), z: self.z.min(other.z) }
    }

    /// The componentwise maximum.
    pub fn max(self, other: Vec3) -> (r: Vec3)
        ensures
            r == self.upper(other),
            r.x == self.x.larger(other.x),
            r.y == self.y.larger(other.y),
            r.z == self.z.larger(other.z),
    {
        Vec3 { x: self.x.max(other.x), y: self.y.max(other.y), z: self.z.max(other.z) }
    }
}

/// Bounds around nothing: from positive to negative infinity on every axis.
pub open spec fn no_bounds() -> Bounds {
    let hi = Single::infinity_spec();
    let lo = Single::neg_infinity_spec();
    Bounds { min: Vec3 { x: hi, y: hi, z: hi }, max: Vec3 { x: lo, y: lo, z: lo } }
}

/// The box from -1 to 1 on every axis.
pub open spec fn unit_bounds() -> Bounds {
    let lo = Single { bits: 0xbf80_0000 };
    let hi = Single { bits: ONE_BITS };
    Bounds { min: Vec3 { x: lo, y: lo, z: lo }, max: Vec3 { x: hi, y: hi, z: hi } }
}

/// The bounds of a sequence of points, taken in one after the other.
pub open spec fn bounds_of(points: Seq<Vec3>) -> Bounds
    decreases points.len(),
{
    if points.len() == 0 {
        no_bounds()
    } else {
        bounds_of(points.drop_last()).with(points.last())
    }
}

/// The bounds around the boxes spanned by the corners of every item.
pub open spec fn joined_bounds(items: Seq<[Vec3; 8]>) -> Bounds
    decreases items.len(),
{
    if items.len() == 0 {
        no_bounds()
    } else {
        joined_bounds(items.drop_last()).joined(bounds_of(items.last()@))
    }
}

/// The corners of all items in one sequence.
pub open spec fn all_corners(items: Seq<[Vec3; 8]>) -> Seq<Vec3>
    decreases items.len(),
{
    if items.len() == 0 {
        Seq::empty()
    } else {
        all_corners(items.drop_last()) + items.last()@
    }
}

impl Bounds {
    /// The bounds extended to a point.
    pub open spec fn with(self, point: Vec3) -> Bounds {
        Bounds { min: self.min.lower(point), max: self.max.upper(point) }
    }

    /// The bounds extended to other bounds.
    pub open spec fn joined(self, other: Bounds) -> Bounds {
        Bounds { min: self.min.lower(other.min), max: self.max.upper(other.max) }
    }

    /// The eight corners; x alternates fastest, then y, then z.
    pub open spec fn corner_seq(self) -> Seq<Vec3> {
        seq![
            Vec3 { x: self.min.x, y: self.min.y, z: self.min.z },
            Vec3 { x: self.max.x, y: self.min.y, z: self.min.z },
            Vec3 { x: self.min.x, y: self.max.y, z: self.min.z },
            Vec3 { x: self.max.x, y: self.max.y, z: self.min.z },
            Vec3 { x: self.min.x, y: self.min.y, z: self.max.z },
            Vec3 { x: self.max.x, y: self.min.y, z: self.max.z },
            Vec3 { x: self.min.x, y: self.max.y, z: self.max.z },
            Vec3 { x: self.max.x, y: self.max.y, z: self.max.z },
        ]
    }

    /// Neither corner has a NaN, and the least corner is not above the greatest.
    pub open spec fn proper(self) -> bool {
        forall|a: int|
            #![trigger self.min.axis(a)]
            0 <= a < 3 ==> !self.min.axis(a).nan() && !self.max.axis(a).nan() && self.min.axis(a).key()
                <= self.max.axis(a).key()
    }

    /// Bounds around nothing.
    pub fn empty() -> (r: Bounds)
        ensures
            r == no_bounds(),
            r.min.x.bits == 0x7f80_0000 && r.min.y.bits == 0x7f80_0000 && r.min.z.bits == 0x7f80_0000,
            r.max.x.bits == 0xff80_0000 && r.max.y.bits == 0xff80_0000 && r.max.z.bits == 0xff80_0000,
    {
        Bounds { min: Vec3::splat(Single::infinity()), max: Vec3::splat(Single::neg_infinity()) }
    }

    /// Extends the bounds to a point.
    pub fn include_point(&mut self, point: Vec3)
        ensures
            *final(self) == old(self).with(point),
            final(self).min.x == old(self).min.x.smaller(point.x),
            final(self).min.y == old(self).min.y.smaller(point.y),
            final(self).min.z == old(self).min.z.smaller(point.z),
            final(self).max.x == old(self).max.x.larger(point.x),
            final(self).max.y == old(self).max.y.larger(point.y),
            final(self).max.z == old(self).max.z.larger(point.z),
    {
        self.min = self.min.min(point);
        self.max = self.max.max(point);
    }

    /// Extends the bounds to other bounds.
    pub fn join(&mut self, other: Bounds)
        ensures
            *final(self) == old(self).joined(other),
            final(self).min.x == old(self).min.x.smaller(other.min.x),
            final(self).min.y == old(self).min.y.smaller(other.min.y),
            final(self).min.z == old(self).min.z.smaller(other.min.z),
            final(self).max.x == old(self).max.x.larger(other.max.x),
            final(self).max.y == old(self).max.y.larger(other.max.y),
            final(self).max.z == old(self).max.z.larger(other.max.z),
    {
        self.min = self.min.min(other.min);
        self.max = self.max.max(other.max);
    }

    /// The eight corners.
    pub fn corners(&self) -> (r: [Vec3; 8])
        ensures
            r@ == self.corner_seq(),
            forall|c: int|
                0 <= c < 8 ==> {
                    &&& (#[trigger] r@[c]).x == (if c % 2 == 0 { self.min.x } else { self.max.x })
                    &&& r@[c].y == (if c / 2 % 2 == 0 { self.min.y } else { self.max.y })
                    &&& r@[c].z == (if c / 4 == 0 { self.min.z } else { self.max.z })
                },
    {
        let lo = self.min;
        let hi = self.max;
        let r = [
            Vec3 { x: lo.x, y: lo.y, z: lo.z },
            Vec3 { x: hi.x, y: lo.y, z: lo.z },
            Vec3 { x: lo.x, y: hi.y, z: lo.z },
            Vec3 { x: hi.x, y: hi.y, z: lo.z },
            Vec3 { x: lo.x, y: lo.y, z: hi.z },
            Vec3 { x: hi.x, y: lo.y, z: hi.z },
            Vec3 { x: lo.x, y: hi.y, z: hi.z },
            Vec3 { x: hi.x, y: hi.y, z: hi.z },
        ];
        assert(r@ =~= self.corner_seq());
        r
    }
}

/// The bounds of the eight corners of a box after they have been moved.
pub fn bounds_of_corners(corners: &[Vec3; 8]) -> (r: Bounds)
    ensures
        r == bounds_of(corners@),
        forall|c: int| 0 <= c < 8 ==> encloses(r, #[trigger] corners@[c]),
        spanned_by(r, corners@),
{
    let mut r = Bounds::empty();
    let mut k: usize = 0;
    assert(corners@.take(0) =~= Seq::empty());
    while k < 8
        invariant
            0 <= k <= 8,
            r == bounds_of(corners@.take(k as int)),
        decreases 8 - k,
    {
        assert(corners@.take(k as int + 1).drop_last() =~= corners@.take(k as int));
        r.include_point(corners[k]);
        k = k + 1;
    }
    assert(corners@.take(8) =~= corners@);
    proof {
        lemma_bounds_enclose_and_touch(corners@);
    }
    r
}

/// The bounds of a scene, from the moved corners of everything that is drawn.
/// A scene in which nothing is drawn gets the box from -1 to 1.
pub fn scene_bounds(items: &Vec<[Vec3; 8]>) -> (r: Bounds)
    ensures
        items@.len() == 0 ==> r == unit_bounds(),
        items@.len() > 0 ==> r == joined_bounds(items@),
        items@.len() == 0 ==> {
            &&& r.min.x.bits == 0xbf80_0000 && r.min.y.bits == 0xbf80_0000 && r.min.z.bits == 0xbf80_0000
            &&& r.max.x.bits == 0x3f80_0000 && r.max.y.bits == 0x3f80_0000 && r.max.z.bits == 0x3f80_0000
        },
        forall|j: int, c: int| 0 <= j < items@.len() && 0 <= c < 8 ==> encloses(r, #[trigger] items@[j]@[c]),
        items@.len() > 0 ==> spanned_by(r, items@.map_values(|corners: [Vec3; 8]| corners@).flatten()),
{
    if items.len() == 0 {
        return Bounds {
            min: Vec3::splat(Single { bits: 0xbf80_0000 }),
            max: Vec3::splat(Single { bits: ONE_BITS }),
        };
    }
    let mut r = Bounds::empty();
    let mut k: usize = 0;
    assert(items@.take(0) =~= Seq::empty());
    while k < items.len()
        invariant
            0 <= k <= items@.len(),
            r == joined_bounds(items@.take(k as int)),
        decreases items@.len() - k,
    {
        assert(items@.take(k as int + 1).drop_last() =~= items@.take(k as int));
        r.join(bounds_of_corners(&items[k]));
        k = k + 1;
    }
    assert(items@.take(items@.len() as int) =~= items@);
    proof {
        lemma_scene_bounds_enclose_and_touch(items@);
    }
    r
}

/// `b` reaches around `point` as numbers are ordered. A coordinate that is a NaN
/// has no place and does not count.
pub open spec fn encloses(b: Bounds, point: Vec3) -> bool {
    &&& point.x.bits % 0x8000_0000 > 0x7f80_0000 || b.min.x.value() <= point.x.value() <= b.max.x.value()
    &&& point.y.bits % 0x8000_0000 > 0x7f80_0000 || b.min.y.value() <= point.y.value() <= b.max.y.value()
    &&& point.z.bits % 0x8000_0000 > 0x7f80_0000 || b.min.z.value() <= point.z.value() <= b.max.z.value()
}

/// Each of the six sides of `b` is a coordinate of one of the points, unless no
/// coordinate counts there: then the least is positive infinity and the greatest
/// negative infinity.
pub open spec fn spanned_by(b: Bounds, points: Seq<Vec3>) -> bool {
    &&& b.min.x.bits == 0x7f80_0000 || exists|i: int| 0 <= i < points.len() && (#[trigger] points[i]).x == b.min.x
    &&& b.min.y.bits == 0x7f80_0000 || exists|i: int| 0 <= i < points.len() && (#[trigger] points[i]).y == b.min.y
    &&& b.min.z.bits == 0x7f80_0000 || exists|i: int| 0 <= i < points.len() && (#[trigger] points[i]).z == b.min.z
    &&& b.max.x.bits == 0xff80_0000 || exists|i: int| 0 <= i < points.len() && (#[trigger] points[i]).x == b.max.x
    &&& b.max.y.bits == 0xff80_0000 || exists|i: int| 0 <= i < points.len() && (#[trigger] points[i]).y == b.max.y
    &&& b.max.z.bits == 0xff80_0000 || exists|i: int| 0 <= i < points.len() && (#[trigger] points[i]).z == b.max.z
}

/// The bounds of points enclose every point and are spanned by the points; no
/// side is a NaN.
pub proof fn lemma_bounds_enclose_and_touch(points: Seq<Vec3>)
    ensures
        forall|i: int| 0 <= i < points.len() ==> encloses(bounds_of(points), #[trigger] points[i]),
        spanned_by(bounds_of(points), points),
        bounds_of(points).min.x.bits % 0x8000_0000 <= 0x7f80_0000,
        bounds_of(points).min.y.bits % 0x8000_0000 <= 0x7f80_0000,
        bounds_of(points).min.z.bits % 0x8000_0000 <= 0x7f80_0000,
        bounds_of(points).max.x.bits % 0x8000_0000 <= 0x7f80_0000,
        bounds_of(points).max.y.bits % 0x8000_0000 <= 0x7f80_0000,
        bounds_of(points).max.z.bits % 0x8000_0000 <= 0x7f80_0000,
{
    let b = bounds_of(points);
    lemma_bounds_reach_points(points);
    assert(!b.min.axis(0).nan() && !b.min.axis(1).nan() && !b.min.axis(2).nan());
    assert forall|i: int| 0 <= i < points.len() implies encloses(b, #[trigger] points[i]) by {
        assert(reaches(b, points[i], 0) && reaches(b, points[i], 1) && reaches(b, points[i], 2));
        lemma_order_is_numeric(points[i].x, b.min.x);
        lemma_order_is_numeric(points[i].x, b.max.x);
        lemma_order_is_numeric(points[i].y, b.min.y);
        lemma_order_is_numeric(points[i].y, b.max.y);
        lemma_order_is_numeric(points[i].z, b.min.z);
        lemma_order_is_numeric(points[i].z, b.max.z);
    }
    lemma_infinities_are_extreme(b.min.x);
    lemma_bounds_are_tight(points, 0);
    lemma_bounds_are_tight(points, 1);
    lemma_bounds_are_tight(points, 2);
    lemma_order_is_numeric(b.min.x, b.max.x);
    lemma_order_is_numeric(b.max.x, b.min.x);
    lemma_order_is_numeric(b.min.y, b.max.y);
    lemma_order_is_numeric(b.max.y, b.min.y);
    lemma_order_is_numeric(b.min.z, b.max.z);
    lemma_order_is_numeric(b.max.z, b.min.z);
    if b.min.x.bits != 0x7f80_0000 {
        let i = choose|i: int| 0 <= i < points.len() && (#[trigger] points[i]).axis(0) == b.min.axis(0);
        assert(points[i].x == b.min.x);
    }
    if b.min.y.bits != 0x7f80_0000 {
        let i = choose|i: int| 0 <= i < points.len() && (#[trigger] points[i]).axis(1) == b.min.axis(1);
        assert(points[i].y == b.min.y);
    }
    if b.min.z.bits != 0x7f80_0000 {
        let i = choose|i: int| 0 <= i < points.len() && (#[trigger] points[i]).axis(2) == b.min.axis(2);
        assert(points[i].z == b.min.z);
    }
    if b.max.x.bits != 0xff80_0000 {
        let i = choose|i: int| 0 <= i < points.len() && (#[trigger] points[i]).axis(0) == b.max.axis(0);
        assert(points[i].x == b.max.x);
    }
    if b.max.y.bits != 0xff80_0000 {
        let i = choose|i: int| 0 <= i < points.len() && (#[trigger] points[i]).axis(1) == b.max.axis(1);
        assert(points[i].y == b.max.y);
    }
    if b.max.z.bits != 0xff80_0000 {
        let i = choose|i: int| 0 <= i < points.len() && (#[trigger] points[i]).axis(2) == b.max.axis(2);
        assert(points[i].z == b.max.z);
    }
}

proof fn lemma_all_corners_are_flattened(items: Seq<[Vec3; 8]>)
    ensures
        all_corners(items) == items.map_values(|corners: [Vec3; 8]| corners@).flatten(),
    decreases items.len(),
{
    let lists = items.map_values(|corners: [Vec3; 8]| corners@);
    if items.len() > 0 {
        let front = items.drop_last();
        lemma_all_corners_are_flattened(front);
        assert(front.map_values(|corners: [Vec3; 8]| corners@).push(items.last()@) =~= lists);
        front.map_values(|corners: [Vec3; 8]| corners@).lemma_flatten_push(items.last()@);
    } else {
        assert(lists =~= Seq::empty());
    }
}

/// The bounds of a scene enclose every moved corner of everything drawn and are
/// spanned by those corners; where nothing is drawn, they are the box from -1 to
/// 1.
pub proof fn lemma_scene_bounds_enclose_and_touch(items: Seq<[Vec3; 8]>)
    ensures
        forall|j: int, c: int|
            0 <= j < items.len() && 0 <= c < 8 ==> encloses(joined_bounds(items), #[trigger] items[j]@[c]),
        spanned_by(joined_bounds(items), items.map_values(|corners: [Vec3; 8]| corners@).flatten()),
        unit_bounds().min == (Vec3 {
            x: Single { bits: 0xbf80_0000 },
            y: Single { bits: 0xbf80_0000 },
            z: Single { bits: 0xbf80_0000 },
        }),
        unit_bounds().max == (Vec3 {
            x: Single { bits: 0x3f80_0000 },
            y: Single { bits: 0x3f80_0000 },
            z: Single { bits: 0x3f80_0000 },
        }),
{
    lemma_scene_bounds_are_bounds_of_corners(items);
    lemma_all_corners_are_flattened(items);
    lemma_bounds_enclose_and_touch(all_corners(items));
    assert forall|j: int, c: int| 0 <= j < items.len() && 0 <= c < 8 implies encloses(
        joined_bounds(items),
        #[trigger] items[j]@[c],
    ) by {
        let i = lemma_corner_among_all(items, j, c);
        assert(encloses(bounds_of(all_corners(items)), all_corners(items)[i]));
    }
}

/// Corner `c` takes the greater x where `c` is odd, the greater y where `c / 2`
/// is, and the greater z where `c / 4` is.
pub proof fn lemma_corners_are_all_combinations(b: Bounds, c: int)
    requires
        0 <= c < 8,
    ensures
        b.corner_seq().len() == 8,
        b.corner_seq()[c].x == (if c % 2 == 0 { b.min.x } else { b.max.x }),
        b.corner_seq()[c].y == (if c / 2 % 2 == 0 { b.min.y } else { b.max.y }),
        b.corner_seq()[c].z == (if c / 4 == 0 { b.min.z } else { b.max.z }),
{
}

/// Bounds extended to a point are the bounds of both, side by side: on every
/// axis, the lesser of the two least and the greater of the two greatest values.
pub proof fn lemma_extension_is_sidewise(b: Bounds, p: Vec3, other: Bounds)
    ensures
        b.with(p).min == (Vec3 { x: b.min.x.smaller(p.x), y: b.min.y.smaller(p.y), z: b.min.z.smaller(p.z) }),
        b.with(p).max == (Vec3 { x: b.max.x.larger(p.x), y: b.max.y.larger(p.y), z: b.max.z.larger(p.z) }),
        b.with(p) == b.joined(Bounds { min: p, max: p }),
        b.joined(other) == (Bounds { min: b.with(other.min).min, max: b.with(other.max).max }),
{
}

/// On one axis, `b` reaches around `point`, unless the coordinate is a NaN.
pub open spec fn reaches(b: Bounds, point: Vec3, a: int) -> bool {
    point.axis(a).nan() || b.min.axis(a).key() <= point.axis(a).key() <= b.max.axis(a).key()
}

/// The bounds of points have no NaN and reach around every point.
pub proof fn lemma_bounds_reach_points(points: Seq<Vec3>)
    ensures
        forall|a: int|
            #![trigger bounds_of(points).min.axis(a)]
            0 <= a < 3 ==> !bounds_of(points).min.axis(a).nan() && !bounds_of(points).max.axis(a).nan(),
        forall|i: int, a: int|
            0 <= i < points.len() && 0 <= a < 3 ==> #[trigger] reaches(bounds_of(points), points[i], a),
    decreases points.len(),
{
    if points.len() > 0 {
        let front = points.drop_last();
        lemma_bounds_reach_points(front);
        let b = bounds_of(front);
        assert(!b.min.axis(0).nan() && !b.min.axis(1).nan() && !b.min.axis(2).nan());
        assert forall|i: int, a: int| 0 <= i < points.len() && 0 <= a < 3 implies #[trigger] reaches(
            bounds_of(points),
            points[i],
            a,
        ) by {
            if i < front.len() {
                assert(front[i] == points[i]);
                assert(reaches(b, front[i], a));
            }
        }
    }
}

/// The bounds of points are tight: on every axis the least value is a
/// coordinate of one of the points or positive infinity, and the greatest value
/// is a coordinate of one of the points or negative infinity.
pub proof fn lemma_bounds_are_tight(points: Seq<Vec3>, a: int)
    requires
        0 <= a < 3,
    ensures
        bounds_of(points).min.axis(a) == Single::infinity_spec() || exists|i: int|
            0 <= i < points.len() && (#[trigger] points[i]).axis(a) == bounds_of(points).min.axis(a),
        bounds_of(points).max.axis(a) == Single::neg_infinity_spec() || exists|i: int|
            0 <= i < points.len() && (#[trigger] points[i]).axis(a) == bounds_of(points).max.axis(a),
    decreases points.len(),
{
    if points.len() > 0 {
        let front = points.drop_last();
        let n = points.len() - 1;
        lemma_bounds_are_tight(front, a);
        let b = bounds_of(front);
        let lo = bounds_of(points).min.axis(a);
        let hi = bounds_of(points).max.axis(a);
        assert(lo == b.min.axis(a) || lo == points[n].axis(a));
        assert(hi == b.max.axis(a) || hi == points[n].axis(a));
        if lo != Single::infinity_spec() && lo != points[n].axis(a) {
            let i = choose|i: int| 0 <= i < front.len() && (#[trigger] front[i]).axis(a) == b.min.axis(a);
            assert(points[i].axis(a) == lo);
        }
        if hi != Single::neg_infinity_spec() && hi != points[n].axis(a) {
            let i = choose|i: int| 0 <= i < front.len() && (#[trigger] front[i]).axis(a) == b.max.axis(a);
            assert(points[i].axis(a) == hi);
        }
    }
}

/// Joining the bounds of two sets of points gives the bounds of both together.
pub proof fn lemma_join_is_bounds_of_both(left: Seq<Vec3>, right: Seq<Vec3>)
    ensures
        bounds_of(left + right) == bounds_of(left).joined(bounds_of(right)),
    decreases right.len(),
{
    lemma_bounds_reach_points(left);
    let b = bounds_of(left);
    assert(!b.min.axis(0).nan() && !b.min.axis(1).nan() && !b.min.axis(2).nan());
    if right.len() == 0 {
        assert(left + right =~= left);
    } else {
        let front = right.drop_last();
        lemma_join_is_bounds_of_both(left, front);
        lemma_bounds_reach_points(front);
        let c = bounds_of(front);
        assert(!c.min.axis(0).nan() && !c.min.axis(1).nan() && !c.min.axis(2).nan());
        assert((left + right).drop_last() =~= left + front);
        assert((left + right).last() == right.last());
    }
}

/// The bounds of a scene are those of the moved corners of everything drawn.
pub proof fn lemma_scene_bounds_are_bounds_of_corners(items: Seq<[Vec3; 8]>)
    ensures
        joined_bounds(items) == bounds_of(all_corners(items)),
    decreases items.len(),
{
    if items.len() > 0 {
        lemma_scene_bounds_are_bounds_of_corners(items.drop_last());
        lemma_join_is_bounds_of_both(all_corners(items.drop_last()), items.last()@);
    }
}

proof fn lemma_corner_among_all(items: Seq<[Vec3; 8]>, j: int, c: int) -> (i: int)
    requires
        0 <= j < items.len(),
        0 <= c < 8,
    ensures
        0 <= i < all_corners(items).len(),
        all_corners(items)[i] == items[j]@[c],
    decreases items.len(),
{
    let front = items.drop_last();
    if j < front.len() {
        lemma_corner_among_all(front, j, c)
    } else {
        all_corners(front).len() + c
    }
}

/// The bounds of a scene reach around every moved corner of everything drawn.
pub proof fn lemma_scene_bounds_reach_corners(items: Seq<[Vec3; 8]>, j: int, c: int, a: int)
    requires
        0 <= j < items.len(),
        0 <= c < 8,
        0 <= a < 3,
    ensures
        reaches(joined_bounds(items), items[j]@[c], a),
{
    lemma_scene_bounds_are_bounds_of_corners(items);
    lemma_bounds_reach_points(all_corners(items));
    let i = lemma_corner_among_all(items, j, c);
    assert(reaches(bounds_of(all_corners(items)), all_corners(items)[i], a));
}

/// Corners that have not been moved span the box they were taken from.
pub proof fn lemma_corners_span_box(b: Bounds)
    requires
        b.proper(),
    ensures
        forall|a: int|
            0 <= a < 3 ==> (#[trigger] bounds_of(b.corner_seq()).min.axis(a)).key() == b.min.axis(a).key(),
        forall|a: int|
            0 <= a < 3 ==> (#[trigger] bounds_of(b.corner_seq()).max.axis(a)).key() == b.max.axis(a).key(),
{
    let points = b.corner_seq();
    assert(b.min.axis(0).key() <= b.max.axis(0).key());
    assert(b.min.axis(1).key() <= b.max.axis(1).key());
    assert(b.min.axis(2).key() <= b.max.axis(2).key());
    lemma_bounds_reach_points(points);
    assert forall|a: int| 0 <= a < 3 implies (#[trigger] bounds_of(points).min.axis(a)).key() == b.min.axis(a).key() by {
        lemma_bounds_are_tight(points, a);
        assert(reaches(bounds_of(points), points[0], a));
    }
    assert forall|a: int| 0 <= a < 3 implies (#[trigger] bounds_of(points).max.axis(a)).key() == b.max.axis(a).key() by {
        lemma_bounds_are_tight(points, a);
        assert(reaches(bounds_of(points), points[7], a));
    }
}

/// `inner` lies within `outer` on every axis.
pub open spec fn within(inner: Bounds, outer: Bounds) -> bool {
    forall|a: int|
        #![trigger inner.min.axis(a)]
        #![trigger outer.min.axis(a)]
        0 <= a < 3 ==> outer.min.axis(a).key() <= inner.min.axis(a).key() && inner.max.axis(a).key()
            <= outer.max.axis(a).key()
}

/// Bounds that reach around every point reach around the bounds of the points.
/// So a larger box, whose moved corners span one that reaches around the moved
/// corners of a smaller box, never gets smaller bounds than that.
pub proof fn lemma_bounds_within(points: Seq<Vec3>, outer: Bounds)
    requires
        forall|a: int|
            #![trigger outer.min.axis(a)]
            0 <= a < 3 ==> !outer.min.axis(a).nan() && !outer.max.axis(a).nan(),
        forall|i: int, a: int| 0 <= i < points.len() && 0 <= a < 3 ==> #[trigger] reaches(outer, points[i], a),
    ensures
        within(bounds_of(points), outer),
{
    lemma_bounds_reach_points(points);
    assert forall|a: int| 0 <= a < 3 implies outer.min.axis(a).key() <= (#[trigger] bounds_of(points).min.axis(
        a,
    )).key() && bounds_of(points).max.axis(a).key() <= outer.max.axis(a).key() by {
        assert(!outer.min.axis(a).nan());
        lemma_bounds_are_tight(points, a);
        if bounds_of(points).min.axis(a) != Single::infinity_spec() {
            let i = choose|i: int|
                0 <= i < points.len() && (#[trigger] points[i]).axis(a) == bounds_of(points).min.axis(a);
            assert(reaches(outer, points[i], a));
        }
        if bounds_of(points).max.axis(a) != Single::neg_infinity_spec() {
            let i = choose|i: int|
                0 <= i < points.len() && (#[trigger] points[i]).axis(a) == bounds_of(points).max.axis(a);
            assert(reaches(outer, points[i], a));
        }
    }
    assert forall|a: int| 0 <= a < 3 implies (#[trigger] outer.min.axis(a)).key() <= bounds_of(points).min.axis(
        a,
    ).key() && bounds_of(points).max.axis(a).key() <= outer.max.axis(a).key() by {
        assert(outer.min.axis(a).key() <= bounds_of(points).min.axis(a).key());
    }
}

/// Every point of `left` is one of `right`.
pub open spec fn points_among(left: Seq<Vec3>, right: Seq<Vec3>) -> bool {
    forall|i: int| 0 <= i < left.len() ==> right.contains(#[trigger] left[i])
}

/// The bounds of fewer points lie within those of more.
pub proof fn lemma_fewer_points_smaller_bounds(left: Seq<Vec3>, right: Seq<Vec3>)
    requires
        points_among(left, right),
    ensures
        within(bounds_of(left), bounds_of(right)),
{
    let outer = bounds_of(right);
    lemma_bounds_reach_points(right);
    assert forall|a: int| 0 <= a < 3 implies !(#[trigger] outer.min.axis(a)).nan() && !outer.max.axis(a).nan() by {
        assert(!bounds_of(right).min.axis(a).nan());
    }
    assert forall|i: int, a: int| 0 <= i < left.len() && 0 <= a < 3 implies #[trigger] reaches(outer, left[i], a) by {
        assert(right.contains(left[i]));
        let j = choose|j: int| 0 <= j < right.len() && right[j] == left[i];
        assert(reaches(outer, right[j], a));
    }
    lemma_bounds_within(left, outer);
}

/// The order of points, and how often one occurs, does not change their bounds,
/// except that a zero may be of either sign.
pub proof fn lemma_bounds_ignore_order(left: Seq<Vec3>, right: Seq<Vec3>)
    requires
        points_among(left, right),
        points_among(right, left),
    ensures
        within(bounds_of(left), bounds_of(right)),
        within(bounds_of(right), bounds_of(left)),
{
    lemma_fewer_points_smaller_bounds(left, right);
    lemma_fewer_points_smaller_bounds(right, left);
}

/// However the corners are moved, it does not matter which of the two corners
/// that give a box is called the least.
pub proof fn lemma_swapped_box_has_same_bounds(b: Bounds, moved: spec_fn(Vec3) -> Vec3)
    ensures
        ({
            let swapped = Bounds { min: b.max, max: b.min };
            let left = bounds_of(b.corner_seq().map_values(moved));
            let right = bounds_of(swapped.corner_seq().map_values(moved));
            within(left, right) && within(right, left)
        }),
{
    let swapped = Bounds { min: b.max, max: b.min };
    let left = b.corner_seq().map_values(moved);
    let right = swapped.corner_seq().map_values(moved);
    assert forall|i: int| 0 <= i < left.len() implies right.contains(#[trigger] left[i]) by {
        assert(right[7 - i] == left[i]);
    }
    assert forall|i: int| 0 <= i < right.len() implies left.contains(#[trigger] right[i]) by {
        assert(left[7 - i] == right[i]);
    }
    lemma_bounds_ignore_order(left, right);
}

impl Vec3 {
    /// The vector with another coordinate along axis 0, 1 or 2.
    pub open spec fn with_axis(self, v: int, s: Single) -> Vec3 {
        if v == 0 {
            Vec3 { x: s, ..self }
        } else if v == 1 {
            Vec3 { y: s, ..self }
        } else {
            Vec3 { z: s, ..self }
        }
    }
}

/// `point` lies in the box, and has no NaN.
pub open spec fn inside(point: Vec3, b: Bounds) -> bool {
    forall|v: int|
        #![trigger point.axis(v)]
        0 <= v < 3 ==> !point.axis(v).nan() && b.min.axis(v).key() <= point.axis(v).key() <= b.max.axis(v).key()
}

/// In the box, coordinate `a` of the moved point never falls as coordinate `v`
/// of the point rises.
pub open spec fn rises(moved: spec_fn(Vec3) -> Vec3, b: Bounds, a: int, v: int) -> bool {
    forall|p: Vec3, q: Vec3|
        #![trigger moved(p), moved(q)]
        inside(p, b) && inside(q, b) && q == p.with_axis(v, q.axis(v)) && p.axis(v).key() <= q.axis(v).key()
            ==> moved(p).axis(a).key() <= moved(q).axis(a).key()
}

/// In the box, coordinate `a` of the moved point never rises as coordinate `v`
/// of the point rises.
pub open spec fn falls(moved: spec_fn(Vec3) -> Vec3, b: Bounds, a: int, v: int) -> bool {
    forall|p: Vec3, q: Vec3|
        #![trigger moved(p), moved(q)]
        inside(p, b) && inside(q, b) && q == p.with_axis(v, q.axis(v)) && p.axis(v).key() <= q.axis(v).key()
            ==> moved(q).axis(a).key() <= moved(p).axis(a).key()
}

/// In the box, no moved point has a NaN, and each of its coordinates depends on
/// each coordinate of the point in one direction only, as it does under an
/// affine transform.
pub open spec fn moves_steadily(moved: spec_fn(Vec3) -> Vec3, b: Bounds) -> bool {
    &&& forall|p: Vec3, a: int|
        #![trigger moved(p).axis(a)]
        inside(p, b) && 0 <= a < 3 ==> !moved(p).axis(a).nan()
    &&& forall|a: int, v: int|
        #![trigger rises(moved, b, a, v)]
        0 <= a < 3 && 0 <= v < 3 ==> rises(moved, b, a, v) || falls(moved, b, a, v)
}

/// One of the two ends of the box on axis `v` moves coordinate `a` at least as
/// high as `p` (`upward`), or at least as low.
proof fn lemma_end_moves_further(
    moved: spec_fn(Vec3) -> Vec3,
    b: Bounds,
    p: Vec3,
    a: int,
    v: int,
    upward: bool,
) -> (end: Single)
    requires
        b.proper(),
        moves_steadily(moved, b),
        inside(p, b),
        0 <= a < 3,
        0 <= v < 3,
    ensures
        end == b.min.axis(v) || end == b.max.axis(v),
        inside(p.with_axis(v, end), b),
        upward ==> moved(p).axis(a).key() <= moved(p.with_axis(v, end)).axis(a).key(),
        !upward ==> moved(p.with_axis(v, end)).axis(a).key() <= moved(p).axis(a).key(),
{
    let low = p.with_axis(v, b.min.axis(v));
    let high = p.with_axis(v, b.max.axis(v));
    assert(!b.min.axis(v).nan() && !b.max.axis(v).nan());
    assert(p.axis(v).key() <= b.max.axis(v).key());
    assert forall|w: int| 0 <= w < 3 implies !(#[trigger] low.axis(w)).nan() && b.min.axis(w).key() <= low.axis(w).key()
        <= b.max.axis(w).key() by {
        assert(!p.axis(w).nan());
    }
    assert forall|w: int| 0 <= w < 3 implies !(#[trigger] high.axis(w)).nan() && b.min.axis(w).key()
        <= high.axis(w).key() <= b.max.axis(w).key() by {
        assert(!p.axis(w).nan());
    }
    assert(p == low.with_axis(v, p.axis(v)));
    assert(high == p.with_axis(v, high.axis(v)));
    assert(rises(moved, b, a, v) || falls(moved, b, a, v));
    if rises(moved, b, a, v) == upward {
        b.max.axis(v)
    } else {
        b.min.axis(v)
    }
}

/// Some corner of the box moves coordinate `a` at least as high as `p`, or at
/// least as low.
proof fn lemma_corner_moves_further(
    moved: spec_fn(Vec3) -> Vec3,
    b: Bounds,
    p: Vec3,
    a: int,
    upward: bool,
) -> (c: int)
    requires
        b.proper(),
        moves_steadily(moved, b),
        inside(p, b),
        0 <= a < 3,
    ensures
        0 <= c < 8,
        upward ==> moved(p).axis(a).key() <= moved(b.corner_seq()[c]).axis(a).key(),
        !upward ==> moved(b.corner_seq()[c]).axis(a).key() <= moved(p).axis(a).key(),
{
    let x = lemma_end_moves_further(moved, b, p, a, 0, upward);
    let p1 = p.with_axis(0, x);
    let y = lemma_end_moves_further(moved, b, p1, a, 1, upward);
    let p2 = p1.with_axis(1, y);
    let z = lemma_end_moves_further(moved, b, p2, a, 2, upward);
    let p3 = p2.with_axis(2, z);
    let c = (if x == b.min.x { 0int } else { 1 }) + (if y == b.min.y { 0int } else { 2 }) + (if z == b.min.z {
        0int
    } else {
        4
    });
    assert(b.corner_seq()[c] == p3);
    c
}

/// A larger box never gets smaller bounds: if all corners of `inner` lie in
/// `outer`, the bounds of its moved corners lie within those of the moved
/// corners of `outer`.
pub proof fn lemma_larger_box_has_larger_bounds(inner: Bounds, outer: Bounds, moved: spec_fn(Vec3) -> Vec3)
    requires
        outer.proper(),
        moves_steadily(moved, outer),
        forall|c: int| 0 <= c < 8 ==> inside(#[trigger] inner.corner_seq()[c], outer),
    ensures
        within(
            bounds_of(inner.corner_seq().map_values(moved)),
            bounds_of(outer.corner_seq().map_values(moved)),
        ),
{
    let small = inner.corner_seq().map_values(moved);
    let large = outer.corner_seq().map_values(moved);
    lemma_bounds_reach_points(large);
    let around = bounds_of(large);
    assert forall|i: int, a: int| 0 <= i < small.len() && 0 <= a < 3 implies #[trigger] reaches(around, small[i], a) by {
        let p = inner.corner_seq()[i];
        let up = lemma_corner_moves_further(moved, outer, p, a, true);
        let down = lemma_corner_moves_further(moved, outer, p, a, false);
        lemma_corners_inside(outer, up);
        lemma_corners_inside(outer, down);
        assert(large[up] == moved(outer.corner_seq()[up]));
        assert(large[down] == moved(outer.corner_seq()[down]));
        assert(!moved(outer.corner_seq()[up]).axis(a).nan());
        assert(!moved(outer.corner_seq()[down]).axis(a).nan());
        assert(reaches(around, large[up], a));
        assert(reaches(around, large[down], a));
    }
    lemma_bounds_within(small, around);
}

/// The corners of a box lie in it.
proof fn lemma_corners_inside(b: Bounds, c: int)
    requires
        b.proper(),
        0 <= c < 8,
    ensures
        inside(b.corner_seq()[c], b),
{
    let p = b.corner_seq()[c];
    assert forall|v: int| 0 <= v < 3 implies !(#[trigger] p.axis(v)).nan() && b.min.axis(v).key() <= p.axis(v).key()
        <= b.max.axis(v).key() by {
        assert(!b.min.axis(v).nan());
    }
}

} // verus!
