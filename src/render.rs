//! The path-tracing driver, pixel output and the demonstration scene.
use vstd::prelude::*;
use rand::rngs::StdRng;
use crate::fixed::{self, SCALE, LIMIT, in_range, tdiv, mul_spec, sqrt_spec, is_isqrt};
use crate::vec3::{Vec3, vadd, vsub, vmul, unit_spec, length_spec, length_squared_spec};
use crate::camera::{Camera, ray_spec};
use crate::ray::{Ray, WORLD, in_world};
use crate::material::{Material, scatter_spec, sample_ok};
use crate::hittable::{HittableList, HitRecord, Sphere, scan_hit, sphere_hit};
use crate::random::{rand_double, rand_vector};

verus! {

/// The nearest parameter a bounce may hit, against self-intersection (0.001).
pub const T_MIN: i64 = 66;

/// The radius of the small spheres of the demonstration scene (0.2).
pub const SMALL_RADIUS: i64 = 13107;

/// Small spheres keep their centers farther than this from the metal
/// feature sphere's foot (0.9).
pub const CLEARANCE: i64 = 58982;

/// The largest image side, so that pixel indices are fixed-point values.
pub const MAX_DIM: u32 = 16777216;

pub open spec fn black() -> Vec3 {
    Vec3 { x: 0, y: 0, z: 0 }
}

/// The sky: white looking down, blue `(0.5, 0.7, 1)` looking up, blended by
/// the height of the unit direction.
pub open spec fn background_spec(dir: Vec3) -> Vec3 {
    let h = if length_spec(dir) == 0 { 0 } else { unit_spec(dir).y as int };
    let t0 = tdiv(h + SCALE, 2);
    let t = if t0 < 0 { 0 } else if t0 > SCALE { SCALE as int } else { t0 };
    let m = SCALE - t;
    Vec3 {
        x: (32768 + mul_spec(32768, m)) as i64,
        y: (45875 + mul_spec(19661, m)) as i64,
        z: SCALE,
    }
}

/// The point the small spheres keep clear of.
pub open spec fn feature_foot() -> Vec3 {
    Vec3 { x: (4 * SCALE) as i64, y: SMALL_RADIUS, z: 0 }
}

pub open spec fn clear_of_feature(c: Vec3) -> bool {
    length_spec(vsub(c, feature_foot())) > CLEARANCE
}

/// The color a sum of samples becomes: the mean, its square root (gamma
/// two), times 255, truncated to a byte.
pub open spec fn channel_spec(sum: int, samples: int) -> int {
    let mean = tdiv(sum, samples);
    let m = if mean < 0 { 0 } else { mean };
    let v = tdiv(sqrt_spec(m) * 255, SCALE as int);
    if v > 255 { 255 } else { v }
}

proof fn lemma_lerp_bound(k: int, m: int)
    requires
        0 <= k <= SCALE,
        0 <= m <= SCALE,
    ensures
        0 <= mul_spec(k, m) <= k,
{
    assert(0 <= (k * m) / (SCALE as int) <= k) by (nonlinear_arith)
        requires
            0 <= k <= 65536,
            0 <= m <= 65536,
    ;
}

/// The sky color seen along `dir`.
pub fn background(dir: Vec3) -> (r: Vec3)
    requires
        dir.wf(),
    ensures
        r == background_spec(dir),
        32768 <= r.x <= SCALE,
        45875 <= r.y <= SCALE,
        r.z == SCALE,
{
    let h: i64 = match dir.unit_vector() {
        Some(u) => u.y,
        None => 0,
    };
    let t0: i64 = fixed::fx_div(fixed::fx_add(h, SCALE), 2 * SCALE);
    let t: i64 = if t0 < 0 { 0 } else if t0 > SCALE { SCALE } else { t0 };
    let m: i64 = SCALE - t;
    proof {
        lemma_lerp_bound(32768, m as int);
        lemma_lerp_bound(19661, m as int);
        assert(fixed::add_spec(h as int, SCALE as int) * SCALE / (2 * SCALE) == fixed::add_spec(h as int, SCALE as int) / 2)
            by (nonlinear_arith);
        assert((-fixed::add_spec(h as int, SCALE as int)) * SCALE / (2 * SCALE) == (-fixed::add_spec(h as int, SCALE as int)) / 2)
            by (nonlinear_arith);
    }
    Vec3::new(32768 + fixed::fx_mul(32768, m), 45875 + fixed::fx_mul(19661, m), SCALE)
}

/// `c` is the light that arrives along `r` in a scene of spheres `objs`,
/// following at most `depth` bounces, for some choice of the random inputs
/// that the samplers can give: black once the bounces are spent; the sky
/// when nothing is hit (or the ray leaves the world box, where nothing can
/// be searched); black when the hit material absorbs; and otherwise the
/// attenuation times the light traced along the scattered ray.
pub open spec fn traced(r: Ray, objs: Seq<Sphere>, depth: int, c: Vec3) -> bool
    decreases depth,
{
    if depth <= 0 {
        c == black()
    } else if !r.in_world() {
        c == background_spec(r.dir)
    } else {
        match scan_hit(objs, r, T_MIN as int, LIMIT as int, objs.len() as int) {
            None => c == background_spec(r.dir),
            Some(rec) => exists|sample: Vec3, draw: int|
                #![trigger scatter_spec(rec.mat, r, rec, sample, draw)]
                sample_ok(rec.mat, sample, draw) && match scatter_spec(rec.mat, r, rec, sample, draw) {
                    None => c == black(),
                    Some((attenuation, scattered)) => exists|incoming: Vec3|
                        traced(scattered, objs, depth - 1, incoming) && c == #[trigger] vmul(incoming, attenuation),
                },
        }
    }
}

/// The light arriving along `r` in `world`, following at most `depth`
/// bounces.
#[verifier::rlimit(50)]
pub fn get_color(r: &Ray, world: &HittableList, depth: i32, rng: &mut StdRng) -> (c: Vec3)
    requires
        world.wf(),
        r.wf(),
    ensures
        c.wf(),
        traced(*r, world.objects@, depth as int, c),
    decreases depth,
{
    if depth <= 0 {
        return Vec3::new(0, 0, 0);
    }
    if !r.check_world() {
        return background(r.dir);
    }
    match world.hit(r, T_MIN, LIMIT) {
        Some(rec) => {
            let res = rec.mat.scatter(r, &rec, rng);
            let ghost (sample, draw) = choose|sample: Vec3, draw: int|
                sample_ok(rec.mat, sample, draw) && #[trigger] scatter_spec(rec.mat, *r, rec, sample, draw) == res;
            assert(scatter_spec(rec.mat, *r, rec, sample, draw) == res);
            match res {
                Some((attenuation, scattered)) => {
                    let incoming = get_color(&scattered, world, depth - 1, rng);
                    let c = incoming.elemul(attenuation);
                    assert(c == vmul(incoming, attenuation));
                    c
                },
                None => {
                    Vec3::new(0, 0, 0)
                },
            }
        },
        None => background(r.dir),
    }
}

/// The saturating sum of a sequence of colors.
pub open spec fn sum_colors(cs: Seq<Vec3>) -> Vec3
    decreases cs.len(),
{
    if cs.len() == 0 {
        black()
    } else {
        vadd(sum_colors(cs.drop_last()), cs.last())
    }
}

/// The viewport coordinate of pixel `i` of `n` with jitter `jitter`.
pub open spec fn viewport_spec(i: int, n: int, jitter: int) -> int {
    fixed::div_spec(i * SCALE + jitter, if n > 1 { (n - 1) * SCALE } else { SCALE as int })
}

/// `ray` is the camera ray through pixel `(x, y)` jittered by `jx`, `jy`
/// from the lens point `disk`.
pub open spec fn camera_sample_with(cam: Camera, x: int, y: int, width: int, height: int, ray: Ray, jx: int, jy: int, disk: Vec3) -> bool {
    &&& 0 <= jx < SCALE && 0 <= jy < SCALE
    &&& disk.wf() && disk.z == 0 && length_squared_spec(disk) < SCALE
    &&& ray == ray_spec(cam, viewport_spec(x, width, jx), viewport_spec(y, height, jy), disk)
}

/// `ray` is a camera ray through pixel `(x, y)` for some jitter in `[0, 1)`
/// and some point of the unit lens disk.
pub open spec fn camera_sample(cam: Camera, x: int, y: int, width: int, height: int, ray: Ray) -> bool {
    exists|jx: int, jy: int, disk: Vec3| #[trigger] camera_sample_with(cam, x, y, width, height, ray, jx, jy, disk)
}

/// A color with every channel in `[0, 1]`.
pub open spec fn unit_color(c: Vec3) -> bool {
    0 <= c.x <= SCALE && 0 <= c.y <= SCALE && 0 <= c.z <= SCALE
}

/// Every sphere's material keeps at most all of the light: albedos in `[0, 1]`.
pub open spec fn albedos_in_unit(objs: Seq<Sphere>) -> bool {
    forall|i: int| 0 <= i < objs.len() ==> match (#[trigger] objs[i]).mat {
        Material::Lambertian { albedo } => unit_color(albedo),
        Material::Metal { albedo, .. } => unit_color(albedo),
        Material::Dielectric { .. } => true,
    }
}

proof fn lemma_scan_hit_material(objs: Seq<Sphere>, r: Ray, t_min: int, t_max: int, n: int)
    requires
        0 <= n <= objs.len(),
        scan_hit(objs, r, t_min, t_max, n) is Some,
    ensures
        exists|i: int| 0 <= i < n && (#[trigger] objs[i]).mat == scan_hit(objs, r, t_min, t_max, n)->0.mat,
    decreases n,
{
    let prev = scan_hit(objs, r, t_min, t_max, n - 1);
    let bound = match prev {
        Some(h) => h.t as int,
        None => t_max,
    };
    match sphere_hit(objs[n - 1], r, t_min, bound) {
        Some(h) => {
            assert(objs[n - 1].mat == h.mat);
        },
        None => {
            lemma_scan_hit_material(objs, r, t_min, t_max, n - 1);
        },
    }
}

/// Light stays in `[0, 1]`: when every albedo lies in `[0, 1]`, every color
/// that tracing can give has its channels in `[0, 1]`.
pub proof fn lemma_traced_in_unit(r: Ray, objs: Seq<Sphere>, depth: int, c: Vec3)
    requires
        traced(r, objs, depth, c),
        albedos_in_unit(objs),
    ensures
        unit_color(c),
    decreases depth,
{
    if depth <= 0 {
    } else if !r.in_world() || scan_hit(objs, r, T_MIN as int, LIMIT as int, objs.len() as int) is None {
        lemma_background_in_unit(r.dir);
    } else {
        let rec = scan_hit(objs, r, T_MIN as int, LIMIT as int, objs.len() as int)->0;
        lemma_scan_hit_material(objs, r, T_MIN as int, LIMIT as int, objs.len() as int);
        let i = choose|i: int| 0 <= i < objs.len() && (#[trigger] objs[i]).mat == rec.mat;
        assert(objs[i].mat == rec.mat);
        let (sample, draw) = choose|sample: Vec3, draw: int|
            #![trigger scatter_spec(rec.mat, r, rec, sample, draw)]
            sample_ok(rec.mat, sample, draw) && match scatter_spec(rec.mat, r, rec, sample, draw) {
                None => c == black(),
                Some((attenuation, scattered)) => exists|incoming: Vec3|
                    traced(scattered, objs, depth - 1, incoming) && c == #[trigger] vmul(incoming, attenuation),
            };
        match scatter_spec(rec.mat, r, rec, sample, draw) {
            None => {},
            Some((attenuation, scattered)) => {
                let incoming = choose|incoming: Vec3|
                    traced(scattered, objs, depth - 1, incoming) && c == #[trigger] vmul(incoming, attenuation);
                lemma_traced_in_unit(scattered, objs, depth - 1, incoming);
                assert(unit_color(attenuation));
                lemma_unit_product(incoming.x as int, attenuation.x as int);
                lemma_unit_product(incoming.y as int, attenuation.y as int);
                lemma_unit_product(incoming.z as int, attenuation.z as int);
            },
        }
    }
}

/// A diffuse hit is dimmer than any miss: when every albedo lies in
/// `[0, 1]` and the ray first hits a diffuse surface of albedo at most
/// one half, the traced color sums to less than any sky color does.
#[verifier::rlimit(50)]
pub proof fn lemma_diffuse_hit_darker_than_sky(r: Ray, objs: Seq<Sphere>, depth: int, c: Vec3, sky_dir: Vec3)
    requires
        traced(r, objs, depth, c),
        albedos_in_unit(objs),
        depth > 0,
        r.in_world(),
        scan_hit(objs, r, T_MIN as int, LIMIT as int, objs.len() as int) matches Some(rec)
            && rec.mat matches Material::Lambertian { albedo }
            && albedo.x <= SCALE / 2 && albedo.y <= SCALE / 2 && albedo.z <= SCALE / 2,
    ensures
        c.x + c.y + c.z < background_spec(sky_dir).x + background_spec(sky_dir).y + background_spec(sky_dir).z,
{
    let rec = scan_hit(objs, r, T_MIN as int, LIMIT as int, objs.len() as int)->0;
    lemma_scan_hit_material(objs, r, T_MIN as int, LIMIT as int, objs.len() as int);
    let i = choose|i: int| 0 <= i < objs.len() && (#[trigger] objs[i]).mat == rec.mat;
    assert(objs[i].mat == rec.mat);
    let albedo = match rec.mat {
        Material::Lambertian { albedo } => albedo,
        _ => black(),
    };
    assert(unit_color(albedo));
    let (sample, draw) = choose|sample: Vec3, draw: int|
        #![trigger scatter_spec(rec.mat, r, rec, sample, draw)]
        sample_ok(rec.mat, sample, draw) && match scatter_spec(rec.mat, r, rec, sample, draw) {
            None => c == black(),
            Some((attenuation, scattered)) => exists|incoming: Vec3|
                traced(scattered, objs, depth - 1, incoming) && c == #[trigger] vmul(incoming, attenuation),
        };
    match scatter_spec(rec.mat, r, rec, sample, draw) {
        None => {},
        Some((attenuation, scattered)) => {
            let incoming = choose|incoming: Vec3|
                traced(scattered, objs, depth - 1, incoming) && c == #[trigger] vmul(incoming, attenuation);
            lemma_traced_in_unit(scattered, objs, depth - 1, incoming);
            assert(attenuation == albedo);
            lemma_half_product(incoming.x as int, attenuation.x as int);
            lemma_half_product(incoming.y as int, attenuation.y as int);
            lemma_half_product(incoming.z as int, attenuation.z as int);
        },
    }
    lemma_background_in_unit(sky_dir);
}

proof fn lemma_half_product(a: int, b: int)
    requires
        0 <= a <= SCALE,
        0 <= b <= SCALE / 2,
    ensures
        0 <= mul_spec(a, b) <= SCALE / 2,
{
    assert(0 <= (a * b) / (SCALE as int) <= SCALE / 2) by (nonlinear_arith)
        requires
            0 <= a <= 65536,
            0 <= b <= 32768,
    ;
}

proof fn lemma_unit_product(a: int, b: int)
    requires
        0 <= a <= SCALE,
        0 <= b <= SCALE,
    ensures
        0 <= mul_spec(a, b) <= SCALE,
{
    assert(0 <= (a * b) / (SCALE as int) <= SCALE) by (nonlinear_arith)
        requires
            0 <= a <= 65536,
            0 <= b <= 65536,
    ;
}

proof fn lemma_background_in_unit(dir: Vec3)
    ensures
        unit_color(background_spec(dir)),
        background_spec(dir).x >= 32768,
        background_spec(dir).y >= 45875,
        background_spec(dir).z == SCALE,
{
    let h = if length_spec(dir) == 0 { 0 } else { unit_spec(dir).y as int };
    let t0 = tdiv(h + SCALE, 2);
    let t = if t0 < 0 { 0 } else if t0 > SCALE { SCALE as int } else { t0 };
    lemma_lerp_bound(32768, SCALE - t);
    lemma_lerp_bound(19661, SCALE - t);
}

/// One output channel from a sum of `samples` linear samples.
pub fn to_channel(sum: i64, samples: u32) -> (r: u8)
    requires
        in_range(sum as int),
        samples >= 1,
    ensures
        r == channel_spec(sum as int, samples as int),
{
    let n: i64 = samples as i64;
    let mean: i64 = if sum >= 0 { sum / n } else { -((-sum) / n) };
    proof {
        if sum < 0 {
            assert(0 <= (-(sum as int)) / (n as int) <= -(sum as int)) by (nonlinear_arith)
                requires
                    sum < 0,
                    n >= 1,
            ;
        } else {
            assert(0 <= (sum as int) / (n as int) <= sum as int) by (nonlinear_arith)
                requires
                    sum >= 0,
                    n >= 1,
            ;
        }
    }
    let m: i64 = if mean < 0 { 0 } else { mean };
    let root: i64 = fixed::fx_sqrt(m);
    let v: i64 = root * 255 / SCALE;
    if v > 255 { 255 } else { v as u8 }
}

/// The byte color of a pixel whose `samples` linear samples sum to `sum`.
pub fn pixel_color(sum: Vec3, samples: u32) -> (r: (u8, u8, u8))
    requires
        sum.wf(),
        samples >= 1,
    ensures
        r.0 == channel_spec(sum.x as int, samples as int),
        r.1 == channel_spec(sum.y as int, samples as int),
        r.2 == channel_spec(sum.z as int, samples as int),
{
    (to_channel(sum.x, samples), to_channel(sum.y, samples), to_channel(sum.z, samples))
}

/// The viewport coordinate of pixel index `i` of `n`, jittered by `jitter`
/// in `[0, 1)`: `(i + jitter) / (n - 1)`, or `i + jitter` when `n` is 1.
pub fn viewport_coord(i: u32, n: u32, jitter: i64) -> (r: i64)
    requires
        i < n <= MAX_DIM,
        0 <= jitter < SCALE,
    ensures
        r == fixed::div_spec(i * SCALE + jitter, if n > 1 { (n - 1) * SCALE } else { SCALE as int }),
        in_range(r as int),
{
    let num: i64 = i as i64 * SCALE + jitter;
    let den: i64 = if n > 1 { (n as i64 - 1) * SCALE } else { SCALE };
    fixed::fx_div(num, den)
}

/// The color of pixel `(x, y)` of a `width` by `height` image, `y` counted
/// from the bottom: the mean of `samples` jittered camera rays traced to
/// `max_depth` bounces, gamma corrected.
pub fn render_pixel(
    cam: &Camera,
    world: &HittableList,
    x: u32,
    y: u32,
    width: u32,
    height: u32,
    samples: u32,
    max_depth: i32,
    rng: &mut StdRng,
) -> (r: (u8, u8, u8))
    requires
        cam.wf(),
        world.wf(),
        x < width <= MAX_DIM,
        y < height <= MAX_DIM,
        samples >= 1,
    ensures
        exists|rays: Seq<Ray>, cs: Seq<Vec3>|
            #![trigger sum_colors(cs), rays.len()]
            rays.len() == samples && cs.len() == samples
            && (forall|j: int| 0 <= j < samples ==>
                camera_sample(*cam, x as int, y as int, width as int, height as int, #[trigger] rays[j])
                && traced(rays[j], world.objects@, max_depth as int, cs[j]) && cs[j].wf())
            && r.0 == channel_spec(sum_colors(cs).x as int, samples as int)
            && r.1 == channel_spec(sum_colors(cs).y as int, samples as int)
            && r.2 == channel_spec(sum_colors(cs).z as int, samples as int),
        max_depth <= 0 ==> r == (0u8, 0u8, 0u8),
{
    let mut sum = Vec3::new(0, 0, 0);
    let ghost mut rays: Seq<Ray> = Seq::empty();
    let ghost mut cs: Seq<Vec3> = Seq::empty();
    let mut k: u32 = 0;
    while k < samples
        invariant
            cam.wf(),
            world.wf(),
            x < width <= MAX_DIM,
            y < height <= MAX_DIM,
            k <= samples,
            sum.wf(),
            max_depth <= 0 ==> sum == black(),
            rays.len() == k,
            cs.len() == k,
            sum == sum_colors(cs),
            forall|j: int| 0 <= j < k ==>
                camera_sample(*cam, x as int, y as int, width as int, height as int, #[trigger] rays[j])
                && traced(rays[j], world.objects@, max_depth as int, cs[j]) && cs[j].wf(),
        decreases samples - k,
    {
        let jx = rand_double(rng, 0, SCALE);
        let s = viewport_coord(x, width, jx);
        let jy = rand_double(rng, 0, SCALE);
        let t = viewport_coord(y, height, jy);
        let ray = cam.get_ray(s, t, rng);
        let c = get_color(&ray, world, max_depth, rng);
        proof {
            let disk = choose|disk: Vec3|
                disk.wf() && disk.z == 0 && length_squared_spec(disk) < SCALE && #[trigger] ray_spec(*cam, s as int, t as int, disk) == ray;
            assert(camera_sample_with(*cam, x as int, y as int, width as int, height as int, ray, jx as int, jy as int, disk));
            assert(cs.push(c).drop_last() =~= cs);
            rays = rays.push(ray);
            cs = cs.push(c);
        }
        sum = sum.add(c);
        k = k + 1;
    }
    proof {
        if max_depth <= 0 {
            assert(fixed::sqrt_spec(0) == 0) by {
                assert(is_isqrt(0, 0));
                fixed::lemma_isqrt_unique(0, 0, fixed::sqrt_spec(0));
            }
        }
    }
    pixel_color(sum, samples)
}

pub open spec fn ground() -> Sphere {
    Sphere {
        center: Vec3 { x: 0, y: -65536000i64, z: 0 },
        radius: -65536000i64,
        mat: Material::Lambertian { albedo: Vec3 { x: 32768, y: 32768, z: 32768 } },
    }
}

/// The three large spheres that close the demonstration scene: glass,
/// diffuse brown and polished metal, of radius one.
pub open spec fn features() -> Seq<Sphere> {
    seq![
        Sphere { center: Vec3 { x: 0, y: SCALE, z: 0 }, radius: SCALE, mat: Material::Dielectric { ir: 98304 } },
        Sphere {
            center: Vec3 { x: (-4 * SCALE) as i64, y: SCALE, z: 0 },
            radius: SCALE,
            mat: Material::Lambertian { albedo: Vec3 { x: 26214, y: 13107, z: 6553 } },
        },
        Sphere {
            center: Vec3 { x: (4 * SCALE) as i64, y: SCALE, z: 0 },
            radius: SCALE,
            mat: Material::Metal { albedo: Vec3 { x: 45875, y: 39321, z: 32768 }, fuzz: 0 },
        },
    ]
}

/// The material that the draw `choose` in `[0, 1)` picks for a small sphere:
/// below 0.8 diffuse with albedo in `[0, 1)`, below 0.95 metal with albedo
/// in `[0.5, 1)` and fuzz in `[0, 0.5)`, above that glass of index 1.5.
pub open spec fn material_for(choose: int, m: Material) -> bool {
    if choose < 52429 {
        match m {
            Material::Lambertian { albedo } => 0 <= albedo.x < SCALE && 0 <= albedo.y < SCALE && 0 <= albedo.z < SCALE,
            _ => false,
        }
    } else if choose < 62259 {
        match m {
            Material::Metal { albedo, fuzz } => SCALE / 2 <= albedo.x < SCALE && SCALE / 2 <= albedo.y < SCALE
                && SCALE / 2 <= albedo.z < SCALE && 0 <= fuzz < SCALE / 2,
            _ => false,
        }
    } else {
        m == (Material::Dielectric { ir: 98304 })
    }
}

proof fn lemma_cell_index(a: int, b: int, k: int)
    requires
        -11 <= a < 11,
        -11 <= b < 11,
        k == (a + 11) * 22 + (b + 11),
    ensures
        k / 22 == a + 11,
        k % 22 == b + 11,
        0 <= k < 484,
{
    vstd::arithmetic::div_mod::lemma_fundamental_div_mod_converse(k, 22, a + 11, b + 11);
}

/// The number of cells of the grid, 22 by 22.
pub const CELLS: i64 = 484;

/// `c` is a jittered center in cell `k` of the grid, counted row by row:
/// `x` in `[a, a + 0.9)` and `z` in `[b, b + 0.9)` for `a = k / 22 - 11`,
/// `b = k % 22 - 11`, at height 0.2.
pub open spec fn in_cell(c: Vec3, k: int) -> bool {
    let a = k / 22 - 11;
    let b = k % 22 - 11;
    &&& c.y == SMALL_RADIUS
    &&& a * SCALE <= c.x < a * SCALE + CLEARANCE
    &&& b * SCALE <= c.z < b * SCALE + CLEARANCE
}

/// The candidates, a center and a material draw each, that are clear of
/// the metal feature sphere, in order.
pub open spec fn kept(cand: Seq<(Vec3, int)>) -> Seq<(Vec3, int)>
    decreases cand.len(),
{
    if cand.len() == 0 {
        Seq::empty()
    } else {
        let rest = kept(cand.drop_last());
        if clear_of_feature(cand.last().0) {
            rest.push(cand.last())
        } else {
            rest
        }
    }
}

/// `small` are the small spheres built from the kept candidates of `cand`.
pub open spec fn built_from(small: Seq<Sphere>, cand: Seq<(Vec3, int)>) -> bool {
    &&& small.len() == kept(cand).len()
    &&& forall|i: int| 0 <= i < small.len() ==> {
        &&& (#[trigger] small[i]).center == kept(cand)[i].0
        &&& small[i].radius == SMALL_RADIUS
        &&& material_for(kept(cand)[i].1, small[i].mat)
    }
}

proof fn lemma_kept_len(cand: Seq<(Vec3, int)>)
    ensures
        kept(cand).len() <= cand.len(),
    decreases cand.len(),
{
    if cand.len() > 0 {
        lemma_kept_len(cand.drop_last());
    }
}

proof fn lemma_albedo_product(a: int, b: int)
    requires
        0 <= a < SCALE,
        0 <= b < SCALE,
    ensures
        0 <= mul_spec(a, b) < SCALE,
{
    assert(0 <= (a * b) / (SCALE as int) < SCALE) by (nonlinear_arith)
        requires
            0 <= a < 65536,
            0 <= b < 65536,
    ;
}

/// A small sphere of the demonstration scene at `centre`, whose material
/// the draw `choose` in `[0, 1)` picks: diffuse below 0.8, metal below
/// 0.95, glass above.
pub fn small_sphere(centre: Vec3, choose: i64, rng: &mut StdRng) -> (r: Sphere)
    requires
        in_world(centre),
    ensures
        r.wf(),
        r.center == centre,
        r.radius == SMALL_RADIUS,
        material_for(choose as int, r.mat),
{
    let mat = if choose < 52429 {
        let a = rand_vector(rng, 0, SCALE);
        let b = rand_vector(rng, 0, SCALE);
        proof {
            lemma_albedo_product(a.x as int, b.x as int);
            lemma_albedo_product(a.y as int, b.y as int);
            lemma_albedo_product(a.z as int, b.z as int);
        }
        Material::lambertian(a.elemul(b))
    } else if choose < 62259 {
        let albedo = rand_vector(rng, SCALE / 2, SCALE);
        let fuzz = rand_double(rng, 0, SCALE / 2);
        Material::metal(albedo, fuzz)
    } else {
        Material::dielectric(98304)
    };
    Sphere::new(centre, SMALL_RADIUS, mat)
}

/// The demonstration scene: a huge gray ground sphere; for each cell of the
/// grid `[-11, 11)^2`, row by row, a candidate center jittered within the
/// cell, kept as a small sphere of random material only when clear of the
/// metal feature sphere; and the three feature spheres.
pub fn random_scene(rng: &mut StdRng) -> (world: HittableList)
    ensures
        world.wf(),
        4 <= world.objects@.len() <= CELLS + 4,
        world.objects@[0] == ground(),
        world.objects@.subrange(world.objects@.len() - 3, world.objects@.len() as int) == features(),
        forall|i: int|
            1 <= i < world.objects@.len() - 3 ==> (#[trigger] world.objects@[i]).radius == SMALL_RADIUS
                && clear_of_feature(world.objects@[i].center),
        exists|cand: Seq<(Vec3, int)>|
            #![trigger kept(cand)]
            cand.len() == CELLS
            && (forall|k: int| 0 <= k < CELLS ==> in_cell((#[trigger] cand[k]).0, k) && 0 <= cand[k].1 < SCALE)
            && built_from(world.objects@.subrange(1, world.objects@.len() - 3), cand),
{
    let mut objects: Vec<Sphere> = Vec::new();
    objects.push(Sphere::new(
        Vec3::new(0, -65536000, 0),
        -65536000,
        Material::lambertian(Vec3::new(32768, 32768, 32768)),
    ));
    let foot = Vec3::new(4 * SCALE, SMALL_RADIUS, 0);
    let ghost mut cand: Seq<(Vec3, int)> = Seq::empty();
    let mut a: i64 = -11;
    while a < 11
        invariant
            -11 <= a <= 11,
            foot == feature_foot(),
            objects@.len() >= 1,
            objects@[0] == ground(),
            forall|i: int| 0 <= i < objects@.len() ==> (#[trigger] objects@[i]).wf(),
            forall|i: int|
                1 <= i < objects@.len() ==> (#[trigger] objects@[i]).radius == SMALL_RADIUS
                    && clear_of_feature(objects@[i].center),
            cand.len() == (a + 11) * 22,
            forall|k: int| 0 <= k < cand.len() ==> in_cell((#[trigger] cand[k]).0, k) && 0 <= cand[k].1 < SCALE,
            built_from(objects@.subrange(1, objects@.len() as int), cand),
        decreases 11 - a,
    {
        let mut b: i64 = -11;
        while b < 11
            invariant
                -11 <= a < 11,
                -11 <= b <= 11,
                foot == feature_foot(),
                objects@.len() >= 1,
                objects@[0] == ground(),
                forall|i: int| 0 <= i < objects@.len() ==> (#[trigger] objects@[i]).wf(),
                forall|i: int|
                    1 <= i < objects@.len() ==> (#[trigger] objects@[i]).radius == SMALL_RADIUS
                        && clear_of_feature(objects@[i].center),
                cand.len() == (a + 11) * 22 + (b + 11),
                forall|k: int| 0 <= k < cand.len() ==> in_cell((#[trigger] cand[k]).0, k) && 0 <= cand[k].1 < SCALE,
                built_from(objects@.subrange(1, objects@.len() as int), cand),
            decreases 11 - b,
        {
            let choose = rand_double(rng, 0, SCALE);
            let jx = rand_double(rng, 0, CLEARANCE);
            let jz = rand_double(rng, 0, CLEARANCE);
            let centre = Vec3::new(a * SCALE + jx, SMALL_RADIUS, b * SCALE + jz);
            let ghost k = cand.len() as int;
            proof {
                lemma_cell_index(a as int, b as int, k);
            }
            let ghost old_objects = objects@;
            let ghost next = cand.push((centre, choose as int));
            proof {
                assert(next.drop_last() =~= cand);
            }
            if centre.sub(foot).length() > CLEARANCE {
                let s = small_sphere(centre, choose, rng);
                objects.push(s);
                proof {
                    assert(objects@.subrange(1, objects@.len() as int) =~= old_objects.subrange(1, old_objects.len() as int).push(s));
                }
            }
            proof {
                cand = next;
            }
            b = b + 1;
        }
        a = a + 1;
    }
    let n = objects.len();
    let ghost loop_objs = objects@;
    objects.push(Sphere::new(Vec3::new(0, SCALE, 0), SCALE, Material::dielectric(98304)));
    objects.push(Sphere::new(
        Vec3::new(-4 * SCALE, SCALE, 0),
        SCALE,
        Material::lambertian(Vec3::new(26214, 13107, 6553)),
    ));
    objects.push(Sphere::new(
        Vec3::new(4 * SCALE, SCALE, 0),
        SCALE,
        Material::metal(Vec3::new(45875, 39321, 32768), 0),
    ));
    assert(objects@.subrange(n as int, n + 3) =~= features());
    assert(objects@.subrange(1, objects@.len() - 3) =~= loop_objs.subrange(1, n as int));
    assert(built_from(objects@.subrange(1, objects@.len() - 3), cand));
    proof {
        lemma_kept_len(cand);
    }
    HittableList::new(objects)
}

} // verus!
