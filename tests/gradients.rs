use marchrs::combinators::{Intersect, Invert, Remove, Union};
use marchrs::fixed::UNIT;
use marchrs::items::{Plane, Sphere};
use marchrs::marcher::MarchError;
use marchrs::renderer::Occlusion;
use marchrs::sdf::{normalize, numeric_call_grad, Sdf, SdfGrad};
use marchrs::shapes::{Cube, GenericPlane};
use marchrs::smooth_union::SmoothUnion;
use marchrs::transforms::{SdfRound, SdfTranslate};

const U: i64 = UNIT;

#[test]
fn plane_gradient_is_last_axis() {
    assert_eq!(Plane::<3>.grad([5, -9, 12]), [0, 0, U]);
    assert_eq!(Plane::<3>.call_grad([5, -9, 12]), (12, [0, 0, U]));
}

#[test]
fn sphere_gradient_points_outward() {
    assert_eq!(Sphere::<3>.grad([3 * U, 4 * U, 0]), [600_000, 800_000, 0]);
    assert_eq!(Sphere::<3>.call_grad([0, 0, -2 * U]), (3 * U / 2, [0, 0, -U]));
    assert_eq!(Sphere::<3>.grad([0, 0, 0]), [0, 0, 0]);
}

#[test]
fn normalize_scales_to_unit_length() {
    assert_eq!(normalize([3, 4]), [600_000, 800_000]);
    assert_eq!(normalize([0, -7, 0]), [0, -U, 0]);
    assert_eq!(normalize([0i64; 4]), [0; 4]);
}

#[test]
fn combinator_gradients_follow_their_rules() {
    let a = Sphere::<3>;
    let b = Sphere::<3>.translate([U, 0, 0]);
    assert_eq!(Union(a, b).grad([-U, 0, 0]), [-U, 0, 0]);
    assert_eq!(Union(a, b).grad([2 * U, 0, 0]), [U, 0, 0]);
    assert_eq!(Intersect(a, b).grad([-U, 0, 0]), [-U, 0, 0]);
    assert_eq!(Intersect(a, b).grad([U / 4, U, 0]), [-600_000, 800_000, 0]);
    assert_eq!(Invert(a).grad([3 * U, 4 * U, 0]), [-600_000, -800_000, 0]);
    assert_eq!(Remove(a, b).grad([-U, 0, 0]), [-U, 0, 0]);
    assert_eq!(Remove(a, b).grad([2 * U / 5, 0, 0]), [U, 0, 0]);
    assert_eq!(a.round(U / 10).call_grad([2 * U, 0, 0]), (14 * U / 10, [U, 0, 0]));
    assert_eq!(b.grad([3 * U, 0, 0]), [U, 0, 0]);
}

#[test]
fn smooth_union_gradient_on_the_seam() {
    let a = Sphere::<3>.translate([0, 0, -U]);
    let b = Sphere::<3>.translate([0, 0, U]);
    let s = SmoothUnion(a, b, U / 10);
    let (d, g) = s.call_grad([0, 0, 0]);
    assert_eq!(d, s.call([0, 0, 0]));
    assert_eq!(g, [0, 0, -9 * U]);
}

#[test]
fn smooth_union_gradient_away_from_the_seam() {
    let a = Sphere::<3>;
    let b = Sphere::<3>.translate([0, 0, 5 * U]);
    let s = SmoothUnion(a, b, U / 10);
    assert_eq!(s.grad([U, 0, 0]), [U, 0, 0]);
}

#[test]
fn numerical_gradient_of_a_cube() {
    let cube = Cube::<3>::default();
    assert_eq!(cube.grad([U, 0, 0]), [U, 0, 0]);
    assert_eq!(cube.grad([0, -2 * U, U / 4]), [0, -U, 0]);
    assert_eq!(numeric_call_grad(&Sphere::<3>, [0, 2 * U, 0]), (3 * U / 2, [0, U, 0]));
}

#[test]
fn occlusion_of_open_and_creased_surfaces() {
    let occ = Occlusion { num_iters: 3, step_size: U / 10 };
    assert_eq!(occ.render(&Plane::<3>, Ok([0, 0, 0])), 0);
    let creased = Union(Plane::<3>, Sphere::<3>.translate([600_000, 0, 0]));
    assert_eq!(occ.render(&creased, Ok([0, 0, 0])), 7843);
    assert_eq!(occ.render(&creased, Err(MarchError::MaxIter(20))), 0);
}

#[test]
fn smooth_union_gradient_of_two_planes_at_equal_distance() {
    let a = GenericPlane::new([U, 0], [0, 0]);
    let b = GenericPlane::new([0, U], [0, 0]);
    let s = SmoothUnion(a, b, U / 10);
    assert_eq!(s.grad([0, 0]), [U, 0]);
}

#[test]
fn smooth_union_gradient_stops_blending_past_the_radius() {
    let a = GenericPlane::new([U, 0], [0, 0]);
    let b = GenericPlane::new([0, U], [0, 0]);
    let s = SmoothUnion(a, b, U / 10);
    assert_eq!(s.grad([0, 150_000]), [U, 0]);
    assert_eq!(s.grad([150_000, 0]), [0, U]);
}

#[test]
fn numerical_gradient_of_an_oblique_plane() {
    let plane = GenericPlane::new([600_000, 800_000], [0, 0]);
    assert_eq!(numeric_call_grad(&plane, [U / 2, U / 2]), (700_000, [600_000, 800_000]));
    let steep = GenericPlane::new([-280_000, 960_000], [U, 0]);
    assert_eq!(numeric_call_grad(&steep, [3 * U, -U]).1, [-280_000, 960_000]);
}

#[test]
fn normalize_keeps_precision_for_long_vectors() {
    assert_eq!(normalize([1_000, 1_000]), [707_213, 707_213]);
    assert_eq!(normalize([-1_200_000, 1_600_000]), [-600_000, 800_000]);
    assert_eq!(normalize([-1, 0]), [-U, 0]);
}

#[test]
fn smooth_union_gradient_just_past_a_wide_blend() {
    let s = SmoothUnion(Plane::<1>, Invert(Plane::<1>), 999_999);
    assert_eq!(s.grad([-500_000]), [U]);
    assert_eq!(s.grad([500_000]), [-U]);
    let on_edge = SmoothUnion(Plane::<1>, Invert(Plane::<1>), 1_000_000);
    assert_eq!(on_edge.grad([-500_000]), [2 * U]);
}
