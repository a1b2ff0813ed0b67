use gltf_snapshot::bounds::{bounds_of_corners, scene_bounds, Bounds, Vec3};
use gltf_snapshot::frustum::{sphere_in_frustum_view, SphereReach};
use gltf_snapshot::single::Single;

fn single(x: f32) -> Single {
    Single { bits: x.to_bits() }
}

fn value(s: Single) -> f32 {
    f32::from_bits(s.bits)
}

fn point(x: f32, y: f32, z: f32) -> Vec3 {
    Vec3 { x: single(x), y: single(y), z: single(z) }
}

fn samples() -> Vec<f32> {
    vec![
        0.0,
        -0.0,
        1.0,
        -1.0,
        1.5,
        -2.25,
        f32::MIN_POSITIVE,
        -f32::MIN_POSITIVE,
        f32::from_bits(1),
        f32::from_bits(0x8000_0001),
        f32::MAX,
        f32::MIN,
        f32::INFINITY,
        f32::NEG_INFINITY,
        f32::NAN,
        f32::from_bits(0xffc0_0001),
        f32::from_bits(0x7f80_0001),
    ]
}

#[test]
fn comparison_agrees_with_hardware() {
    for a in samples() {
        assert_eq!(single(a).is_nan(), a.is_nan());
        for b in samples() {
            assert_eq!(single(a).lt(single(b)), a < b);
        }
    }
}

#[test]
fn min_and_max_agree_with_hardware() {
    for a in samples() {
        for b in samples() {
            let low = value(single(a).min(single(b)));
            let high = value(single(a).max(single(b)));
            if a.is_nan() && b.is_nan() {
                assert!(low.is_nan() && high.is_nan());
            } else {
                assert_eq!(low, a.min(b));
                assert_eq!(high, a.max(b));
            }
        }
    }
}

#[test]
fn infinities_have_their_patterns() {
    assert_eq!(Single::infinity(), single(f32::INFINITY));
    assert_eq!(Single::neg_infinity(), single(f32::NEG_INFINITY));
}

#[test]
fn empty_bounds_are_infinite() {
    let b = Bounds::empty();
    assert_eq!(b.min, point(f32::INFINITY, f32::INFINITY, f32::INFINITY));
    assert_eq!(b.max, point(f32::NEG_INFINITY, f32::NEG_INFINITY, f32::NEG_INFINITY));
}

#[test]
fn bounds_grow_with_points_and_pass_over_nan() {
    let mut b = Bounds::empty();
    b.include_point(point(1.0, -2.0, f32::NAN));
    b.include_point(point(-3.0, f32::NAN, 4.0));
    assert_eq!(b.min, point(-3.0, -2.0, 4.0));
    assert_eq!(b.max, point(1.0, -2.0, 4.0));
}

#[test]
fn joining_bounds_is_bounding_both() {
    let points = [point(1.0, 5.0, -1.0), point(-2.0, 0.5, 3.0), point(0.0, -7.0, 9.0), point(4.0, 4.0, 4.0)];
    let mut all = Bounds::empty();
    let mut left = Bounds::empty();
    let mut right = Bounds::empty();
    for (i, p) in points.iter().enumerate() {
        all.include_point(*p);
        if i < 2 {
            left.include_point(*p);
        } else {
            right.include_point(*p);
        }
    }
    left.join(right);
    assert_eq!(left, all);
    assert_eq!(all.min, point(-2.0, -7.0, -1.0));
    assert_eq!(all.max, point(4.0, 5.0, 9.0));
}

#[test]
fn corners_in_order() {
    let b = Bounds { min: point(0.0, 1.0, 2.0), max: point(3.0, 4.0, 5.0) };
    assert_eq!(
        b.corners(),
        [
            point(0.0, 1.0, 2.0),
            point(3.0, 1.0, 2.0),
            point(0.0, 4.0, 2.0),
            point(3.0, 4.0, 2.0),
            point(0.0, 1.0, 5.0),
            point(3.0, 1.0, 5.0),
            point(0.0, 4.0, 5.0),
            point(3.0, 4.0, 5.0),
        ]
    );
    assert_eq!(bounds_of_corners(&b.corners()), b);
}

#[test]
fn scene_without_items_gets_unit_box() {
    let b = scene_bounds(&vec![]);
    assert_eq!(b.min, point(-1.0, -1.0, -1.0));
    assert_eq!(b.max, point(1.0, 1.0, 1.0));
}

#[test]
fn scene_bounds_reach_around_all_items() {
    let a = Bounds { min: point(0.0, 0.0, 0.0), max: point(1.0, 2.0, 3.0) };
    let b = Bounds { min: point(-5.0, 1.0, 1.0), max: point(-4.0, 9.0, 2.0) };
    let r = scene_bounds(&vec![a.corners(), b.corners()]);
    assert_eq!(r.min, point(-5.0, 0.0, 0.0));
    assert_eq!(r.max, point(1.0, 9.0, 3.0));
}

fn reach(x: f32, y: f32, z: f32, radius: f32) -> SphereReach {
    let z_dist = -z;
    let half_height = z_dist * 0.5;
    let half_width = half_height * 2.0;
    SphereReach {
        deepest: single(z_dist + radius),
        closest: single(z_dist - radius),
        sideways: single(x.abs() - radius),
        upward: single(y.abs() - radius),
        near: single(0.01),
        far: single(30.0),
        half_width: single(half_width),
        half_height: single(half_height),
    }
}

#[test]
fn sphere_in_view_is_kept() {
    assert!(sphere_in_frustum_view(&reach(0.0, 0.0, -10.0, 1.0)));
    assert!(sphere_in_frustum_view(&reach(11.0, 0.0, -10.0, 1.0)));
    assert!(sphere_in_frustum_view(&reach(0.0, -6.0, -10.0, 1.0)));
    assert!(sphere_in_frustum_view(&reach(0.0, 0.0, -31.0, 1.0)));
}

#[test]
fn sphere_out_of_view_is_culled() {
    assert!(!sphere_in_frustum_view(&reach(0.0, 0.0, 5.0, 1.0)));
    assert!(!sphere_in_frustum_view(&reach(0.0, 0.0, -31.5, 1.0)));
    assert!(!sphere_in_frustum_view(&reach(11.5, 0.0, -10.0, 1.0)));
    assert!(!sphere_in_frustum_view(&reach(-11.5, 0.0, -10.0, 1.0)));
    assert!(!sphere_in_frustum_view(&reach(0.0, 6.5, -10.0, 1.0)));
}

#[test]
fn sphere_of_unknown_reach_is_kept() {
    assert!(sphere_in_frustum_view(&reach(0.0, 0.0, -10.0, f32::NAN)));
}

#[test]
fn further_reach_is_kept() {
    let kept = reach(11.0, 0.0, -10.0, 1.0);
    assert!(sphere_in_frustum_view(&kept));
    assert!(sphere_in_frustum_view(&reach(11.0, 0.0, -10.0, 2.0)));
    let mut deeper = kept;
    deeper.near = single(0.001);
    deeper.far = single(300.0);
    assert!(sphere_in_frustum_view(&deeper));
}

#[test]
fn larger_box_has_larger_bounds() {
    let moved = |c: Vec3| {
        let (x, y, z) = (value(c.x), value(c.y), value(c.z));
        point(2.0 * x - y + 1.0, -3.0 * z, x + y - 0.5 * z)
    };
    let inner = Bounds { min: point(-1.0, 0.0, 0.5), max: point(1.0, 2.0, 1.0) };
    let outer = Bounds { min: point(-2.0, 0.0, 0.0), max: point(1.5, 3.0, 1.0) };
    let small = bounds_of_corners(&inner.corners().map(moved));
    let large = bounds_of_corners(&outer.corners().map(moved));
    assert!(value(large.min.x) <= value(small.min.x) && value(small.max.x) <= value(large.max.x));
    assert!(value(large.min.y) <= value(small.min.y) && value(small.max.y) <= value(large.max.y));
    assert!(value(large.min.z) <= value(small.min.z) && value(small.max.z) <= value(large.max.z));
    let swapped = Bounds { min: outer.max, max: outer.min };
    assert_eq!(bounds_of_corners(&swapped.corners().map(moved)), large);
}

#[test]
fn order_of_corners_does_not_matter() {
    let b = Bounds { min: point(0.0, 1.0, 2.0), max: point(3.0, 4.0, 5.0) };
    let mut corners = b.corners();
    corners.reverse();
    assert_eq!(bounds_of_corners(&corners), b);
}
