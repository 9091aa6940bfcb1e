use marchrs::fixed::UNIT;
use marchrs::items::Sphere;
use marchrs::marcher::{MarchError, Ray, SphereMarcher};
use marchrs::sdf::Sdf;

const U: i64 = UNIT;

fn marcher() -> SphereMarcher {
    SphereMarcher { hit_error: 100, miss_error: 100 * U, max_iter: 20 }
}

#[test]
fn ray_hits_the_unit_sphere() {
    let ray = Ray { pos: [-2 * U, 0, 0], dir: [U, 0, 0] };
    let hit = marcher().march(&Sphere::<3>, ray);
    assert_eq!(hit, Ok([-U / 2, 0, 0]));
}

#[test]
fn parallel_ray_diverges() {
    let ray = Ray { pos: [-2 * U, 5 * U, 5 * U], dir: [U, 0, 0] };
    match marcher().march(&Sphere::<3>, ray) {
        Err(MarchError::Diverges(d)) => assert!(d > 100 * U),
        other => panic!("expected a divergence, got {:?}", other),
    }
}

#[test]
fn marching_twice_gives_the_same_outcome() {
    let scene = Sphere::<3>;
    for ray in [
        Ray { pos: [-2 * U, 0, 0], dir: [U, 0, 0] },
        Ray { pos: [-2 * U, 5 * U, 5 * U], dir: [U, 0, 0] },
        Ray { pos: [-3 * U, U / 10, 0], dir: [U, 0, 0] },
    ] {
        assert_eq!(marcher().march(&scene, ray), marcher().march(&scene, ray));
    }
}

#[test]
fn head_on_ray_hits_within_two_steps() {
    let m = SphereMarcher { hit_error: 100, miss_error: 100 * U, max_iter: 2 };
    for start in [U, 2 * U, 7 * U, 50 * U] {
        let ray = Ray { pos: [-start, 0, 0], dir: [U, 0, 0] };
        match m.march(&Sphere::<3>, ray) {
            Ok(p) => assert!(Sphere::<3>.call(p).abs() < 100),
            other => panic!("expected a hit, got {:?}", other),
        }
    }
}

#[test]
fn budget_runs_out() {
    let m = SphereMarcher { hit_error: 100, miss_error: 100 * U, max_iter: 1 };
    let ray = Ray { pos: [-2 * U, 0, 0], dir: [U, 0, 0] };
    assert_eq!(m.march(&Sphere::<3>, ray), Err(MarchError::MaxIter(1)));
}

#[test]
fn default_marcher_settings() {
    let m = SphereMarcher::default();
    assert_eq!(m.hit_error, 100);
    assert_eq!(m.miss_error, 10_000 * U);
    assert_eq!(m.max_iter, 20);
}

#[test]
fn head_on_ray_from_any_axis_and_side() {
    let m = SphereMarcher { hit_error: 100, miss_error: 100 * U, max_iter: 2 };
    let down = Ray { pos: [0, 0, 3 * U], dir: [0, 0, -U] };
    assert_eq!(m.march(&Sphere::<3>, down), Ok([0, 0, U / 2]));
    let across = Ray { pos: [0, -5 * U, 0], dir: [0, U, 0] };
    assert_eq!(m.march(&Sphere::<3>, across), Ok([0, -U / 2, 0]));
}
