use marchrs::fixed::UNIT;
use marchrs::sdf::{Sdf, SdfGrad};
use marchrs::shapes::{CapCylinder, Cube, Cuboid, Cylinder, GenericPlane, Middle};
use marchrs::transforms::{rodrigues, turn_2d, Rotate, Rotate3D, SdfRotate2D, SdfRotate3D};
use marchrs::items::{Plane, Sphere};
use marchrs::transforms::SdfTranslate;

const U: i64 = UNIT;

#[test]
fn middle_slab() {
    let m = Middle::<3>::default();
    assert_eq!(m.call([0, 0, 2 * U]), 3 * U / 2);
    assert_eq!(m.call([5 * U, 5 * U, 0]), -U / 2);
    assert_eq!(Middle::<3>::new([0, 0, 3 * U]), m);
    assert_eq!(m.grad([0, 0, 2 * U]), [0, 0, U]);
    assert_eq!(m.grad([0, 0, -2 * U]), [0, 0, -U]);
}

#[test]
fn cube_of_slabs() {
    let c = Cube::<3>::default();
    assert_eq!(c.call([2 * U, U, 0]), 3 * U / 2);
    assert_eq!(c.call([0, 0, 0]), -U / 2);
    assert!(c.hits([U / 4, U / 4, U / 4]));
    assert!(!c.hits([U, 0, 0]));
}

#[test]
fn cuboid_distances() {
    let c = Cuboid::<3>::default();
    assert_eq!(c.call([U, 0, 0]), U / 2);
    assert_eq!(c.call([0, 0, 0]), -U / 2);
    assert_eq!(c.call([U, U, 0]), 707_106);
    assert_eq!(c.call([-U, 0, 0]), U / 2);
    assert!(!c.hits([-U, -U, -U]));
    let long = Cuboid([4 * U, U, U]);
    assert_eq!(long.call([3 * U, 0, 0]), U);
}

#[test]
fn cylinders() {
    let c = Cylinder::<3>::default();
    assert_eq!(c.call([3 * U, 4 * U, 100 * U]), 9 * U / 2);
    assert_eq!(Cylinder::new([U, 0, 0]).call([50 * U, 0, U]), U / 2);
    let capped = CapCylinder::<3>::default();
    assert_eq!(capped.call([3 * U, 4 * U, 100 * U]), 199 * U / 2);
    assert_eq!(capped.call([0, 0, 0]), -U / 2);
    assert!(capped.hits([U / 4, 0, U / 4]));
}

#[test]
fn oriented_plane() {
    let p = GenericPlane::new([0, 0, 2 * U], [0, 0, U]);
    assert_eq!(p.1, U);
    assert_eq!(p.call([7, 8, 3 * U]), 2 * U);
    assert_eq!(p.grad([7, 8, 3 * U]), [0, 0, U]);
    assert_eq!(GenericPlane::<3>::default().call([1, 2, 3]), 3);
}

#[test]
fn rotations_carry_points_into_the_child() {
    let quarter = Plane::<2>.rot([[0, -U], [U, 0]]);
    assert_eq!(quarter.call([U, 0]), U);
    assert_eq!(quarter.call([0, U]), 0);
    let spin = Sphere::<3>.rot([[0, -U, 0], [U, 0, 0], [0, 0, U]]);
    assert_eq!(spin.call([2 * U, 0, 0]), 3 * U / 2);
    assert_eq!(spin.grad([2 * U, 0, 0]), [0, U, 0]);
    let still: Rotate3D<Sphere<3>> = Rotate::default();
    assert_eq!(still.1, [[U, 0, 0], [0, U, 0], [0, 0, U]]);
    assert_eq!(still.call([0, 3 * U, 0]), 5 * U / 2);
}

#[test]
fn turning_matrices_from_sine_and_cosine() {
    assert_eq!(turn_2d(U, 0), [[0, -U], [U, 0]]);
    assert_eq!(rodrigues([0, 0, 5 * U], U, 0), [[0, -U, 0], [U, 0, 0], [0, 0, U]]);
    assert_eq!(rodrigues([2 * U, 0, 0], 0, U), [[U, 0, 0], [0, U, 0], [0, 0, U]]);
    assert_eq!(rodrigues([U, 0, 0], 0, -U), [[U, 0, 0], [0, -U, 0], [0, 0, -U]]);
    let half_turn = Sphere::<3>.translate([U, 0, 0]).rot(rodrigues([0, 0, U], 0, -U));
    assert_eq!(half_turn.call([-U, 0, 0]), -U / 2);
}

#[test]
fn default_cube_holds_points_within_half_a_unit_per_axis() {
    let c = Cube::<3>::default();
    assert!(c.hits([U / 2, -U / 2, U / 2]));
    assert!(!c.hits([U / 2 + 1, 0, 0]));
    assert!(!c.hits([0, 0, -U / 2 - 1]));
    assert_eq!(c.call([U / 2 + 1, 0, 0]), 1);
}
