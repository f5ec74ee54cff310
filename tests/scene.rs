use pathtrace::camera::Camera;
use pathtrace::fixed::SCALE;
use pathtrace::hittable::{HittableList, Sphere};
use pathtrace::material::{must_reflect, reflectance, Material};
use pathtrace::ray::Ray;
use pathtrace::render::{background, get_color, pixel_color, random_scene, render_pixel, CLEARANCE, SMALL_RADIUS, T_MIN};
use pathtrace::fixed::LIMIT;
use pathtrace::vec3::Vec3;
use rand::rngs::StdRng;
use rand::SeedableRng;

fn v(x: i64, y: i64, z: i64) -> Vec3 {
    Vec3::new(x, y, z)
}

fn gray() -> Material {
    Material::lambertian(v(SCALE / 2, SCALE / 2, SCALE / 2))
}

fn one_sphere() -> HittableList {
    HittableList::new(vec![Sphere::new(v(0, 0, -SCALE), SCALE / 2, gray())])
}

#[test]
fn sphere_hit_on_axis() {
    let s = Sphere::new(v(0, 0, -SCALE), SCALE / 2, gray());
    let r = Ray::new(v(0, 0, 0), v(0, 0, -SCALE));
    let h = s.hit(&r, 0, LIMIT).unwrap();
    assert_eq!(h.t, SCALE / 2);
    assert_eq!(h.p, v(0, 0, -SCALE / 2));
    assert_eq!(h.normal, v(0, 0, SCALE));
    assert!(h.front_face);
    assert_eq!(h.p.sub(s.center).length(), SCALE / 2);
}

#[test]
fn sphere_hit_point_lies_on_the_sphere() {
    let c = v(SCALE / 3, -SCALE / 5, -3 * SCALE);
    let s = Sphere::new(c, 7 * SCALE / 10, gray());
    let origin = v(SCALE / 10, SCALE / 5, 2 * SCALE);
    let r = Ray::new(origin, c.sub(origin));
    let h = s.hit(&r, 0, LIMIT).unwrap();
    let d = h.p.sub(c);
    assert!((d.length() - 7 * SCALE / 10).abs() <= 8);
    // the normal is the radius direction
    let n = d.div(7 * SCALE / 10);
    assert_eq!(h.normal, n);
    let cr = h.normal.cross(d);
    assert!(cr.length() <= 8);
}

#[test]
fn sphere_miss_and_range() {
    let s = Sphere::new(v(0, 0, -SCALE), SCALE / 2, gray());
    assert!(s.hit(&Ray::new(v(0, 0, 0), v(0, SCALE, 0)), 0, LIMIT).is_none());
    // both roots outside the interval
    assert!(s.hit(&Ray::new(v(0, 0, 0), v(0, 0, -SCALE)), 0, SCALE / 4).is_none());
    // from inside, the far root is taken
    let h = s.hit(&Ray::new(v(0, 0, -SCALE), v(0, 0, -SCALE)), 0, LIMIT).unwrap();
    assert_eq!(h.t, SCALE / 2);
    assert!(!h.front_face);
    assert_eq!(h.normal, v(0, 0, SCALE));
}

#[test]
fn negative_radius_flips_the_outward_normal() {
    let s = Sphere::new(v(0, 0, -SCALE), -SCALE / 2, gray());
    let h = s.hit(&Ray::new(v(0, 0, 0), v(0, 0, -SCALE)), 0, LIMIT).unwrap();
    assert_eq!(h.t, SCALE / 2);
    assert!(!h.front_face);
    assert_eq!(h.normal, v(0, 0, SCALE));
}

#[test]
fn scene_takes_the_nearest_hit() {
    let far = Sphere::new(v(0, 0, -4 * SCALE), SCALE, gray());
    let near = Sphere::new(v(0, 0, -2 * SCALE), SCALE / 2, Material::dielectric(3 * SCALE / 2));
    let world = HittableList::new(vec![far, near]);
    let h = world.hit(&Ray::new(v(0, 0, 0), v(0, 0, -SCALE)), 0, LIMIT).unwrap();
    assert_eq!(h.t, 3 * SCALE / 2);
    assert_eq!(h.mat, Material::dielectric(3 * SCALE / 2));
    let empty = HittableList::new(vec![]);
    assert!(empty.hit(&Ray::new(v(0, 0, 0), v(0, 0, -SCALE)), 0, LIMIT).is_none());
}

#[test]
fn metal_fuzz_is_clamped() {
    assert_eq!(Material::metal(v(1, 1, 1), 2 * SCALE), Material::Metal { albedo: v(1, 1, 1), fuzz: SCALE });
    assert_eq!(Material::metal(v(1, 1, 1), -3), Material::Metal { albedo: v(1, 1, 1), fuzz: 0 });
}

#[test]
fn total_internal_reflection_boundary() {
    // leaving glass (ratio 1.5), the critical cosine is sqrt(1 - 1/2.25) ~ 0.7454
    let ratio = 3 * SCALE / 2;
    let above_critical_angle = 48000; // cos ~ 0.732: sin * 1.5 > 1
    let below_critical_angle = 50000; // cos ~ 0.763: sin * 1.5 < 1
    assert!(must_reflect(ratio, above_critical_angle, SCALE - 1));
    assert!(must_reflect(ratio, above_critical_angle, 0) == must_reflect(ratio, above_critical_angle, SCALE - 1));
    assert!(!must_reflect(ratio, below_critical_angle, SCALE - 1));
    assert!(reflectance(below_critical_angle, ratio) < SCALE - 1);
}

#[test]
fn schlick_at_normal_incidence() {
    // r0 = ((1 - 1.5) / (1 + 1.5))^2 = 0.04
    let r = reflectance(SCALE, 3 * SCALE / 2);
    assert!((r - 2621).abs() <= 2);
}

#[test]
fn diffuse_scatter_falls_back_to_the_normal() {
    let s = Sphere::new(v(0, 0, -SCALE), SCALE / 2, gray());
    let r = Ray::new(v(0, 0, 0), v(0, 0, -SCALE));
    let h = s.hit(&r, 0, LIMIT).unwrap();
    let (att, out) = gray().scatter_with(&r, &h, v(0, 0, -SCALE), 0).unwrap();
    assert_eq!(att, v(SCALE / 2, SCALE / 2, SCALE / 2));
    assert_eq!(out.orig, h.p);
    assert_eq!(out.dir, h.normal);
    let (_, out2) = gray().scatter_with(&r, &h, v(SCALE, 0, 0), 0).unwrap();
    assert_eq!(out2.dir, v(SCALE, 0, SCALE));
}

#[test]
fn metal_absorbs_into_the_surface() {
    let m = Material::metal(v(SCALE, SCALE, SCALE), SCALE);
    let s = Sphere::new(v(0, 0, -SCALE), SCALE / 2, m);
    let r = Ray::new(v(0, 0, 0), v(0, 0, -SCALE));
    let h = s.hit(&r, 0, LIMIT).unwrap();
    let (_, out) = m.scatter_with(&r, &h, v(0, 0, 0), 0).unwrap();
    assert_eq!(out.dir, v(0, 0, SCALE));
    assert!(m.scatter_with(&r, &h, v(0, 0, -SCALE), 0).is_none());
}

#[test]
fn glass_refracts_straight_through_at_normal_incidence() {
    let g = Material::dielectric(3 * SCALE / 2);
    let s = Sphere::new(v(0, 0, -SCALE), SCALE / 2, g);
    let r = Ray::new(v(0, 0, 0), v(0, 0, -SCALE));
    let h = s.hit(&r, 0, LIMIT).unwrap();
    let (att, out) = g.scatter_with(&r, &h, v(0, 0, 0), SCALE - 1).unwrap();
    assert_eq!(att, v(SCALE, SCALE, SCALE));
    assert_eq!(out.dir, v(0, 0, -SCALE));
    let (_, back) = g.scatter_with(&r, &h, v(0, 0, 0), 0).unwrap();
    assert_eq!(back.dir, v(0, 0, SCALE));
}

#[test]
fn depth_zero_is_black() {
    let mut rng = StdRng::seed_from_u64(1);
    let world = one_sphere();
    let r = Ray::new(v(0, 0, 0), v(0, 0, -SCALE));
    assert_eq!(get_color(&r, &world, 0, &mut rng), v(0, 0, 0));
    assert_eq!(get_color(&Ray::new(v(0, 0, 0), v(0, SCALE, 0)), &world, -3, &mut rng), v(0, 0, 0));
}

#[test]
fn miss_gives_the_sky_gradient() {
    let mut rng = StdRng::seed_from_u64(1);
    let world = one_sphere();
    let up = get_color(&Ray::new(v(0, 0, 0), v(0, SCALE, 0)), &world, 5, &mut rng);
    assert_eq!(up, v(SCALE / 2, 45875, SCALE));
    let down = get_color(&Ray::new(v(0, 0, 0), v(0, -SCALE, 0)), &world, 5, &mut rng);
    assert_eq!(down, v(SCALE, SCALE, SCALE));
    for d in [v(SCALE, 3, -7), v(-5, -SCALE, 12345), v(1, 2, 3), v(0, 0, 0)] {
        let c = background(d);
        assert!(SCALE / 2 <= c.x && c.x <= SCALE);
        assert!(45875 <= c.y && c.y <= SCALE);
        assert_eq!(c.z, SCALE);
    }
}

#[test]
fn gamma_corrected_bytes() {
    assert_eq!(pixel_color(v(SCALE, SCALE / 4, 0), 1), (255, 127, 0));
    assert_eq!(pixel_color(v(10 * SCALE, 0, -SCALE), 10), (255, 0, 0));
}

fn small_camera() -> Camera {
    Camera::new(v(0, 0, 0), v(0, 0, -SCALE), v(0, SCALE, 0), SCALE, SCALE, 0, SCALE).unwrap()
}

#[test]
fn camera_rays_span_the_viewport() {
    let cam = small_camera();
    let mut rng = StdRng::seed_from_u64(3);
    let mid = cam.get_ray(SCALE / 2, SCALE / 2, &mut rng);
    assert_eq!(mid.orig, v(0, 0, 0));
    assert_eq!(mid.dir, v(0, 0, -SCALE));
    let corner = cam.get_ray(0, 0, &mut rng);
    assert_eq!(corner.dir, v(-SCALE, -SCALE, -SCALE));
    assert!(Camera::new(v(0, 0, 0), v(0, 0, 0), v(0, SCALE, 0), SCALE, SCALE, 0, SCALE).is_none());
    assert!(Camera::new(v(0, 0, 0), v(0, SCALE, 0), v(0, SCALE, 0), SCALE, SCALE, 0, SCALE).is_none());
}

#[test]
fn sphere_pixel_is_darker_than_sky_corner() {
    let world = one_sphere();
    let cam = small_camera();
    let render = |seed: u64| {
        let mut rng = StdRng::seed_from_u64(seed);
        let mut img = Vec::new();
        for y in 0..20u32 {
            for x in 0..20u32 {
                img.push(render_pixel(&cam, &world, x, y, 20, 20, 10, 10, &mut rng));
            }
        }
        img
    };
    let img = render(42);
    let center = img[10 * 20 + 10];
    let corner = img[0];
    let mag = |p: (u8, u8, u8)| p.0 as u32 + p.1 as u32 + p.2 as u32;
    assert!(mag(center) < mag(corner));
    assert_eq!(img, render(42));
}

#[test]
fn random_scene_keeps_clear_of_the_feature_sphere() {
    let mut rng = StdRng::seed_from_u64(2024);
    let world = random_scene(&mut rng);
    let n = world.objects.len();
    assert!(n > 4);
    assert_eq!(world.objects[0].radius, -65536000);
    let foot = v(4 * SCALE, SMALL_RADIUS, 0);
    for s in &world.objects[1..n - 3] {
        assert_eq!(s.radius, SMALL_RADIUS);
        assert!(s.center.sub(foot).length() > CLEARANCE);
    }
    assert_eq!(world.objects[n - 1].center, v(4 * SCALE, SCALE, 0));
    assert_eq!(world.objects[n - 3].mat, Material::dielectric(3 * SCALE / 2));
    assert!(T_MIN > 0);
}

#[test]
fn miss_outside_the_world_box_still_sees_the_sky() {
    let mut rng = StdRng::seed_from_u64(5);
    let empty = HittableList::new(vec![]);
    let c = get_color(&Ray::new(v(0, 0, 0), v(0, 32768 * SCALE, 0)), &empty, 1, &mut rng);
    assert_eq!(c, v(SCALE / 2, 45875, SCALE));
}

#[test]
fn mirror_returns_half_the_horizon() {
    let mut rng = StdRng::seed_from_u64(6);
    let m = Material::metal(v(SCALE / 2, SCALE / 2, SCALE / 2), 0);
    let world = HittableList::new(vec![Sphere::new(v(0, 0, -SCALE), SCALE / 2, m)]);
    let c = get_color(&Ray::new(v(0, 0, 0), v(0, 0, -SCALE)), &world, 2, &mut rng);
    assert_eq!(c, v(24576, 27852, 32768));
}
