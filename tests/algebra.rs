use pathtrace::fixed::{fx_add, fx_div, fx_mul, fx_sqrt, fx_sub, LIMIT, SCALE};
use pathtrace::random::{rand_double, rand_in_unit_disk, rand_in_unit_sphere, rand_unit_vector, rand_vector};
use pathtrace::ray::Ray;
use pathtrace::vec3::Vec3;
use rand::rngs::StdRng;
use rand::SeedableRng;

fn v(x: i64, y: i64, z: i64) -> Vec3 {
    Vec3::new(x, y, z)
}

#[test]
fn scalar_arithmetic_exact_values() {
    assert_eq!(fx_mul(3 * SCALE / 2, 2 * SCALE), 3 * SCALE);
    assert_eq!(fx_mul(-SCALE / 2, SCALE / 2), -SCALE / 4);
    assert_eq!(fx_div(3 * SCALE, 2 * SCALE), 3 * SCALE / 2);
    assert_eq!(fx_div(SCALE, -4 * SCALE), -SCALE / 4);
    assert_eq!(fx_sqrt(4 * SCALE), 2 * SCALE);
    assert_eq!(fx_sqrt(SCALE / 4), SCALE / 2);
    assert_eq!(fx_sqrt(0), 0);
    assert_eq!(fx_add(2, 3), 5);
    assert_eq!(fx_sub(2, 3), -1);
}

#[test]
fn scalar_arithmetic_saturates() {
    assert_eq!(fx_add(LIMIT, LIMIT), LIMIT);
    assert_eq!(fx_sub(-LIMIT, LIMIT), -LIMIT);
    assert_eq!(fx_mul(LIMIT, 4 * SCALE), LIMIT);
    assert_eq!(fx_div(LIMIT, 1), LIMIT);
}

#[test]
fn dot_is_symmetric() {
    let a = v(SCALE, -2 * SCALE, 3 * SCALE / 2);
    let b = v(7 * SCALE, SCALE / 3, -5);
    assert_eq!(a.dot(b), b.dot(a));
    assert_eq!(v(SCALE, 2 * SCALE, 3 * SCALE).dot(v(4 * SCALE, 5 * SCALE, 6 * SCALE)), 32 * SCALE);
}

#[test]
fn cross_is_antisymmetric() {
    let a = v(SCALE, -2 * SCALE, 3 * SCALE / 2);
    let b = v(7 * SCALE, SCALE / 3, -5);
    assert_eq!(a.cross(b), b.cross(a).neg());
    assert_eq!(v(SCALE, 0, 0).cross(v(0, SCALE, 0)), v(0, 0, SCALE));
}

#[test]
fn length_scales_with_the_scalar() {
    let a = v(3 * SCALE, 4 * SCALE, 0);
    assert_eq!(a.length(), 5 * SCALE);
    assert_eq!(a.scale(-2 * SCALE).length(), 10 * SCALE);
    assert_eq!(a.length_squared(), 25 * SCALE);
}

#[test]
fn normalized_vector_has_unit_length() {
    let u = v(3 * SCALE, 4 * SCALE, 0).unit_vector().unwrap();
    assert_eq!(u, v(39321, 52428, 0));
    let w = v(123457, -98765, 4321).unit_vector().unwrap();
    assert!((w.length() - SCALE).abs() <= 4);
    assert_eq!(v(0, 0, 0).unit_vector(), None);
}

#[test]
fn reflection_mirrors_the_normal_component() {
    let d = v(SCALE, -SCALE, 0);
    let n = v(0, SCALE, 0);
    let r = d.reflect(n);
    assert_eq!(r, v(SCALE, SCALE, 0));
    assert_eq!(r.dot(n), -d.dot(n));
    let d2 = v(37837, -37837, -37837);
    let r2 = d2.reflect(n);
    assert_eq!(r2.dot(n), -d2.dot(n));
}

#[test]
fn refraction_straight_through_and_total_internal() {
    let n = v(0, SCALE, 0);
    assert_eq!(v(0, -SCALE, 0).refract(n, SCALE), Some(v(0, -SCALE, 0)));
    // grazing incidence from glass into air cannot refract
    let grazing = v(SCALE * 99 / 100, -SCALE / 7, 0).unit_vector().unwrap();
    assert_eq!(grazing.refract(n, 3 * SCALE / 2), None);
}

#[test]
fn near_zero_vectors() {
    assert!(v(1, -1, 0).near_zero());
    assert!(!v(2, 0, 0).near_zero());
}

#[test]
fn ray_at_evaluates_the_line() {
    let r = Ray::new(v(SCALE, 0, 0), v(0, 2 * SCALE, 0));
    assert_eq!(r.at(SCALE / 2), v(SCALE, SCALE, 0));
    assert_eq!(r.at(0), v(SCALE, 0, 0));
}

#[test]
fn random_draws_stay_in_their_ranges() {
    let mut rng = StdRng::seed_from_u64(7);
    let mut seen_other = false;
    for _ in 0..200 {
        let x = rand_double(&mut rng, SCALE, 2 * SCALE);
        assert!(SCALE <= x && x < 2 * SCALE);
        if x != SCALE {
            seen_other = true;
        }
        let p = rand_vector(&mut rng, -SCALE, SCALE);
        assert!(-SCALE <= p.x && p.x < SCALE && -SCALE <= p.z && p.z < SCALE);
        let s = rand_in_unit_sphere(&mut rng);
        assert!(s.length_squared() < SCALE);
        let d = rand_in_unit_disk(&mut rng);
        assert!(d.length_squared() < SCALE && d.z == 0);
        let u = rand_unit_vector(&mut rng);
        assert!((u.length_squared() - SCALE).abs() <= 16);
    }
    assert!(seen_other);
}
