//! Deciding whether a bounding sphere can be seen.

use vstd::prelude::*;
use crate::single::Single;
use crate::single::lemma_order_is_numeric;

verus! {

/// The reach of a bounding sphere in view space, and the limits of the view.
#[derive(Clone, Copy, Debug, PartialEq, Eq, Structural)]
pub struct SphereReach {
    /// The distance of the center from the camera plane, plus the radius.
    pub deepest: Single,
    /// The distance of the center from the camera plane, minus the radius.
    pub closest: Single,
    /// The distance of the center to the side, minus the radius.
    pub sideways: Single,
    /// The distance of the center up or down, minus the radius.
    pub upward: Single,
    /// The distance of the near plane.
    pub near: Single,
    /// The distance of the far plane.
    pub far: Single,
    /// Half the width of the view at the distance of the center.
    pub half_width: Single,
    /// Half the height of the view at the distance of the center.
    pub half_height: Single,
}

impl SphereReach {
    /// None of the numbers is a NaN.
    pub open spec fn measured(self) -> bool {
        &&& !self.deepest.nan()
        &&& !self.closest.nan()
        &&& !self.sideways.nan()
        &&& !self.upward.nan()
        &&& !self.near.nan()
        &&& !self.far.nan()
        &&& !self.half_width.nan()
        &&& !self.half_height.nan()
    }
}

/// The sphere lies wholly outside one of the planes that are tested.
pub open spec fn outside_view(s: SphereReach) -> bool {
    ||| s.deepest.below(s.near)
    ||| s.far.below(s.closest)
    ||| s.half_width.below(s.sideways)
    ||| s.half_height.below(s.upward)
}

/// Whether the sphere is kept.
pub fn sphere_in_frustum_view(s: &SphereReach) -> (r: bool)
    ensures
        r == !outside_view(*s),
        s.measured() && s.near.key() <= s.deepest.key() && s.closest.key() <= s.far.key() && s.sideways.key()
            <= s.half_width.key() && s.upward.key() <= s.half_height.key() ==> r,
        !s.deepest.nan() && !s.near.nan() && s.deepest.key() < s.near.key() ==> !r,
        !s.closest.nan() && !s.far.nan() && s.far.key() < s.closest.key() ==> !r,
        !s.sideways.nan() && !s.half_width.nan() && s.half_width.key() < s.sideways.key() ==> !r,
        !s.upward.nan() && !s.half_height.nan() && s.half_height.key() < s.upward.key() ==> !r,
        !r ==> {
            ||| !s.deepest.nan() && !s.near.nan() && s.deepest.key() < s.near.key()
            ||| !s.closest.nan() && !s.far.nan() && s.far.key() < s.closest.key()
            ||| !s.sideways.nan() && !s.half_width.nan() && s.half_width.key() < s.sideways.key()
            ||| !s.upward.nan() && !s.half_height.nan() && s.half_height.key() < s.upward.key()
        },
{
    if s.deepest.lt(s.near) {
        return false;
    }
    if s.far.lt(s.closest) {
        return false;
    }
    if s.half_width.lt(s.sideways) {
        return false;
    }
    if s.half_height.lt(s.upward) {
        return false;
    }
    true
}

/// A sphere is kept exactly if it reaches the near plane, the far plane, the
/// width and the height of the view, as numbers; it is dropped for nothing else.
pub proof fn lemma_kept_exactly_in_view(s: SphereReach)
    requires
        s.deepest.bits % 0x8000_0000 <= 0x7f80_0000,
        s.closest.bits % 0x8000_0000 <= 0x7f80_0000,
        s.sideways.bits % 0x8000_0000 <= 0x7f80_0000,
        s.upward.bits % 0x8000_0000 <= 0x7f80_0000,
        s.near.bits % 0x8000_0000 <= 0x7f80_0000,
        s.far.bits % 0x8000_0000 <= 0x7f80_0000,
        s.half_width.bits % 0x8000_0000 <= 0x7f80_0000,
        s.half_height.bits % 0x8000_0000 <= 0x7f80_0000,
    ensures
        !outside_view(s) <==> {
            &&& s.near.value() <= s.deepest.value()
            &&& s.closest.value() <= s.far.value()
            &&& s.sideways.value() <= s.half_width.value()
            &&& s.upward.value() <= s.half_height.value()
        },
{
    lemma_order_is_numeric(s.deepest, s.near);
    lemma_order_is_numeric(s.far, s.closest);
    lemma_order_is_numeric(s.half_width, s.sideways);
    lemma_order_is_numeric(s.half_height, s.upward);
}

/// The planes are tested one by one: a sphere is kept exactly if it passes each
/// test while the others cannot fail, because the limits of their planes are
/// NaN. A test with a NaN in it drops nothing.
pub proof fn lemma_planes_are_tested_alone(s: SphereReach, no: Single)
    requires
        no.bits % 0x8000_0000 > 0x7f80_0000,
    ensures
        outside_view(s) <==> {
            ||| outside_view(SphereReach { far: no, half_width: no, half_height: no, ..s })
            ||| outside_view(SphereReach { near: no, half_width: no, half_height: no, ..s })
            ||| outside_view(SphereReach { near: no, far: no, half_height: no, ..s })
            ||| outside_view(SphereReach { near: no, far: no, half_width: no, ..s })
        },
        !outside_view(SphereReach { near: no, far: no, half_width: no, half_height: no, ..s }),
        outside_view(SphereReach { far: no, half_width: no, half_height: no, ..s }) <==> s.deepest.below(s.near),
        outside_view(SphereReach { near: no, half_width: no, half_height: no, ..s }) <==> s.far.below(s.closest),
        outside_view(SphereReach { near: no, far: no, half_height: no, ..s }) <==> s.half_width.below(s.sideways),
        outside_view(SphereReach { near: no, far: no, half_width: no, ..s }) <==> s.half_height.below(s.upward),
{
    lemma_order_is_numeric(no, no);
}

/// A sphere whose reach cannot be told, since it comes out as NaN in every
/// direction, is kept.
pub proof fn lemma_unknown_reach_is_kept(s: SphereReach)
    requires
        s.deepest.nan(),
        s.closest.nan(),
        s.sideways.nan(),
        s.upward.nan(),
    ensures
        !outside_view(s),
{
}

/// `b` reaches at least as far as `a` on every side, and the view is at least as
/// deep and as wide.
pub open spec fn reaches_further(b: SphereReach, a: SphereReach) -> bool {
    &&& a.deepest.key() <= b.deepest.key()
    &&& b.closest.key() <= a.closest.key()
    &&& b.sideways.key() <= a.sideways.key()
    &&& b.upward.key() <= a.upward.key()
    &&& b.near.key() <= a.near.key()
    &&& a.far.key() <= b.far.key()
    &&& a.half_width.key() <= b.half_width.key()
    &&& a.half_height.key() <= b.half_height.key()
}

/// A sphere that is kept is kept when it grows, and when the view gets deeper or
/// wider.
pub proof fn lemma_further_reach_is_kept(a: SphereReach, b: SphereReach)
    requires
        !a.deepest.nan(),
        !a.closest.nan(),
        !a.sideways.nan(),
        !a.upward.nan(),
        !a.near.nan(),
        !a.far.nan(),
        !a.half_width.nan(),
        !a.half_height.nan(),
        reaches_further(b, a),
        !outside_view(a),
    ensures
        !outside_view(b),
{
}

} // verus!
