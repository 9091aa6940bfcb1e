use marchrs::combinators::{
    Intersect, Invert, Remove, SdfIntersect, SdfInvert, SdfRemove, SdfUnion, Union,
};
use marchrs::fixed::UNIT;
use marchrs::info::{SdfWithDefault, SdfWithInfo};
use marchrs::interpolate::Interpolate;
use marchrs::items::{Plane, Sphere};
use marchrs::marcher::MarchError;
use marchrs::renderer::Solid;
use marchrs::sdf::{Sdf, SdfInfo};
use marchrs::smooth_union::{SdfSmoothUnion, SmoothUnion};
use marchrs::transforms::{SdfRound, SdfScale, SdfTranslate};

const U: i64 = UNIT;

fn samples() -> Vec<[i64; 3]> {
    let mut out = Vec::new();
    let steps = [-2 * U, -U, -U / 2, -U / 4, 0, U / 3, U / 2, U, 3 * U / 2];
    for &x in steps.iter() {
        for &y in steps.iter() {
            for &z in [-U, 0, U / 5].iter() {
                out.push([x, y, z]);
            }
        }
    }
    out
}

#[test]
fn sphere_distances() {
    assert_eq!(Sphere::<3>.call([2 * U, 0, 0]), 3 * U / 2);
    assert_eq!(Sphere::<3>.call([0, 0, 0]), -U / 2);
    assert_eq!(Sphere::<3>.call([0, 3 * U, 4 * U]), 9 * U / 2);
    assert_eq!(Sphere::<2>.call([-U / 2, 0]), 0);
    assert!(Sphere::<3>.hits([0, 0, U / 2]));
    assert!(!Sphere::<3>.hits([0, 0, U]));
}

#[test]
fn sphere_saturates_far_away() {
    let far = Sphere::<3>.call([i64::MAX, i64::MAX, i64::MIN]);
    assert_eq!(far, 1_099_511_627_776);
}

#[test]
fn primitives_hit_where_distance_is_not_positive() {
    for pos in samples() {
        assert_eq!(Sphere::<3>.hits(pos), Sphere::<3>.call(pos) <= 0);
        assert_eq!(Plane::<3>.hits(pos), Plane::<3>.call(pos) <= 0);
    }
}

#[test]
fn plane_distance_is_last_coordinate() {
    assert_eq!(Plane::<3>.call([5, 6, -7]), -7);
    assert!(Plane::<3>.hits([5, 6, -7]));
    assert!(!Plane::<3>.hits([5, 6, 1]));
}

#[test]
fn union_is_min_and_either_hit() {
    let a = Sphere::<3>;
    let b = Sphere::<3>.translate([U, 0, 0]);
    let u = SdfUnion::or(a, b);
    for pos in samples() {
        assert_eq!(u.call(pos), a.call(pos).min(b.call(pos)));
        assert_eq!(u.hits(pos), a.hits(pos) || b.hits(pos));
    }
    assert_eq!(Union(a, b).call([U, 0, 0]), -U / 2);
}

#[test]
fn intersect_is_max_and_both_hit() {
    let a = Sphere::<3>;
    let b = Sphere::<3>.translate([U / 2, 0, 0]);
    let i = a.and(b);
    for pos in samples() {
        assert_eq!(i.call(pos), a.call(pos).max(b.call(pos)));
        assert_eq!(i.hits(pos), a.hits(pos) && b.hits(pos));
    }
    assert_eq!(Intersect(a, b).call([U / 4, 0, 0]), -U / 4);
}

#[test]
fn remove_is_max_with_negated_second() {
    let a = Sphere::<3>;
    let b = Sphere::<3>.translate([U / 2, 0, 0]);
    let r = SdfRemove::or(a, b);
    for pos in samples() {
        assert_eq!(r.call(pos), a.call(pos).max(-b.call(pos)));
        assert_eq!(r.hits(pos), a.hits(pos) && !b.hits(pos));
    }
    assert_eq!(Remove(a, b).call([U / 2, 0, 0]), U / 2);
    assert_eq!(Remove(a, b).call([-U / 4, 0, 0]), -U / 4);
}

#[test]
fn invert_negates_and_twice_is_identity() {
    let s = Sphere::<3>.translate([0, U / 3, 0]);
    for pos in samples() {
        assert_eq!(s.not().call(pos), -s.call(pos));
        assert_eq!(s.not().hits(pos), !s.hits(pos));
        assert_eq!(Invert(Invert(s)).call(pos), s.call(pos));
        assert_eq!(Invert(Invert(s)).hits(pos), s.hits(pos));
    }
}

#[test]
fn smooth_union_never_exceeds_union() {
    let a = Sphere::<3>.translate([0, 0, -U / 2]);
    let b = Sphere::<3>.translate([0, 0, U / 2]);
    for k in [1, U / 100, U / 10, U] {
        let s = a.smooth_or(b, k);
        for pos in samples() {
            assert!(s.call(pos) <= a.call(pos).min(b.call(pos)));
            assert_eq!(s.hits(pos), s.call(pos) <= 0);
        }
    }
}

#[test]
fn smooth_union_is_rigid_beyond_four_radii() {
    let a = Sphere::<3>.translate([0, 0, -U]);
    let b = Sphere::<3>.translate([0, 0, U]);
    let k = U / 10;
    let s = SmoothUnion(a, b, k);
    let mut checked = 0;
    for pos in samples() {
        let (da, db) = (a.call(pos), b.call(pos));
        if (da - db).abs() >= 4 * k {
            assert_eq!(s.call(pos), da.min(db));
            checked += 1;
        }
    }
    assert!(checked > 0);
}

#[test]
fn smooth_union_blends_at_the_midpoint() {
    let a = Sphere::<3>.translate([0, 0, -300_000]);
    let b = Sphere::<3>.translate([0, 0, 300_000]);
    let s = SmoothUnion(a, b, 100_000);
    let mid = [0, 0, 0];
    assert_eq!(a.call(mid), -200_000);
    assert_eq!(b.call(mid), -200_000);
    assert!(s.call(mid) < a.call(mid).min(b.call(mid)));
    assert_eq!(s.call(mid), -300_000);
}

#[test]
fn smooth_union_blends_information() {
    let a = Sphere::<3>.translate([0, 0, -U]).with(0i64);
    let b = Sphere::<3>.translate([0, 0, U]).with(1_000_000i64);
    let s = SmoothUnion(a, b, U / 10);
    let (d, info) = s.call_info([0, 0, 0]);
    assert_eq!(d, s.call([0, 0, 0]));
    assert_eq!(info, 500_000);
    assert_eq!(s.info([0, 0, -U]), 0);
    assert_eq!(s.info([0, 0, U]), 1_000_000);
}

#[test]
fn round_lowers_distance() {
    let r = Sphere::<3>.round(100_000);
    assert_eq!(r.call([U, 0, 0]), 400_000);
    assert!(r.hits([550_000, 0, 0]));
    assert!(!r.hits([650_000, 0, 0]));
}

#[test]
fn translate_moves_the_field() {
    let t = Sphere::<3>.translate([U, 2 * U, 0]);
    assert_eq!(t.call([U, 2 * U, 0]), -U / 2);
    assert_eq!(t.call([U, 2 * U, 3 * U]), 5 * U / 2);
    assert!(t.hits([U, 2 * U, U / 4]));
}

#[test]
fn scale_divides_position_and_uses_smallest_axis() {
    let s = Sphere::<3>.scale([3 * U, U, U]);
    assert_eq!(s.call([0, U, 0]), U / 2);
    assert_eq!(s.call([2 * U, 0, 0]), 166_666);
    assert!(s.hits([U, 0, 0]));
    assert!(!s.hits([0, U, 0]));
    let uniform = Sphere::<3>.scale([2 * U, 2 * U, 2 * U]);
    assert_eq!(uniform.call([3 * U, 0, 0]), 2 * U);
}

#[test]
fn scaled_field_stays_below_true_distance() {
    let s = Sphere::<3>.scale([3 * U, U, U]);
    let cases = [
        ([0, U, 0], U / 2),
        ([0, 0, -2 * U], 3 * U / 2),
        ([2 * U, 0, 0], U / 2),
        ([-4 * U, 0, 0], 5 * U / 2),
    ];
    for (pos, true_distance) in cases {
        assert!(s.call(pos) <= true_distance);
    }
}

#[test]
fn attached_information_follows_the_nearest_child() {
    let a = Sphere::<3>.with(1u8);
    let b = Sphere::<3>.translate([3 * U, 0, 0]).with(2u8);
    let u = Union(a, b);
    assert_eq!(u.info([-U, 0, 0]), 1);
    assert_eq!(u.info([4 * U, 0, 0]), 2);
    assert_eq!(u.call_info([4 * U, 0, 0]), (U / 2, 2));
    let i = Intersect(a, b);
    assert_eq!(i.info([-U, 0, 0]), 2);
    let r = Remove(a, b);
    assert_eq!(r.info([0, 0, 0]), 1);
    assert_eq!(r.info([3 * U, 0, 0]), 1);
    let bite = Remove(a, Sphere::<3>.translate([U / 2, 0, 0]).with(2u8));
    assert_eq!(bite.call_info([2 * U / 5, 0, 0]), (2 * U / 5, 2));
    assert_eq!(Invert(a).call_info([0, 0, 0]), (U / 2, 1));
}

#[test]
fn default_information() {
    let d = Sphere::<3>.with_default::<u32>();
    assert_eq!(d.call_info([0, 0, 0]), (-U / 2, 0));
    assert_eq!(d.call([U, 0, 0]), U / 2);
}

#[test]
fn interpolation_of_each_kind() {
    assert_eq!(10i64.lerp(20, 250_000), 12);
    assert_eq!(10i64.lerp(20, 0), 10);
    assert_eq!(10i64.lerp(20, U), 20);
    assert_eq!((-10i64).lerp(-20, 250_000), -13);
    assert!(!false.lerp(true, 500_000));
    assert!(false.lerp(true, 500_001));
    assert_eq!(10usize.lerp(20, 250_000), 13);
    assert_eq!(10usize.lerp(0, 250_000), 7);
    assert_eq!(0usize.lerp(10, U), 10);
    assert_eq!([0i64, 100].lerp([100, 0], 500_000), [50, 50]);
}

#[test]
fn solid_renders_info_or_background() {
    let model = Sphere::<3>.with(7u8);
    let solid = Solid { background: 0u8 };
    assert_eq!(solid.render(&model, Ok([0, 0, 0])), 7);
    assert_eq!(solid.render(&model, Err(MarchError::Diverges(5))), 0);
    assert_eq!(solid.render(&model, Err(MarchError::MaxIter(3))), 0);
}

#[test]
fn order_of_transforms_matters() {
    let moved_then_scaled = Sphere::<3>.translate([U, 0, 0]).scale([2 * U, 2 * U, 2 * U]);
    let scaled_then_moved = Sphere::<3>.scale([2 * U, 2 * U, 2 * U]).translate([U, 0, 0]);
    assert_eq!(moved_then_scaled.call([2 * U, 0, 0]), -U);
    assert_eq!(scaled_then_moved.call([2 * U, 0, 0]), 0);
}

#[test]
fn scale_accepts_mirrored_axes() {
    let s = Sphere::<3>.scale([-2 * U, U, U]);
    assert_eq!(s.2, U);
    assert_eq!(s.call([U, 0, 0]), 0);
    assert_eq!(s.call([0, U, 0]), U / 2);
    let mirrored = Sphere::<3>.translate([U, 0, 0]).scale([-U, U, U]);
    assert_eq!(mirrored.call([-U, 0, 0]), -U / 2);
    assert_eq!(mirrored.call([U, 0, 0]), 3 * U / 2);
}
