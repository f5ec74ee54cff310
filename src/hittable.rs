//! Spheres, the scene that holds them, and the nearest-hit search.
use vstd::prelude::*;
use crate::fixed::{self, SCALE, LIMIT, clamp, tdiv, tdiv_pos, mul_spec, sqrt_of, is_isqrt};
use crate::vec3::{self, Vec3, vsub, vdiv, vneg, dot_spec, dot_raw, length_spec, length_squared_spec, abs, lemma_tdiv_pos_close, lemma_abs_square};
use crate::ray::{Ray, WORLD, in_world, at_spec, within_world};
use crate::material::Material;

verus! {

/// Where a ray meets a surface.
#[derive(Clone, Copy, Debug, PartialEq, Eq, Structural)]
pub struct HitRecord {
    pub p: Vec3,
    /// Unit normal, facing against the incoming ray.
    pub normal: Vec3,
    pub t: i64,
    pub front_face: bool,
    pub mat: Material,
}

#[derive(Clone, Copy, Debug, PartialEq, Eq, Structural)]
pub struct Sphere {
    pub center: Vec3,
    /// A negative radius turns the outward normal inward.
    pub radius: i64,
    pub mat: Material,
}

/// The ray's origin relative to the center, exactly.
pub open spec fn oc_x(s: Sphere, r: Ray) -> int { r.orig.x - s.center.x }
pub open spec fn oc_y(s: Sphere, r: Ray) -> int { r.orig.y - s.center.y }
pub open spec fn oc_z(s: Sphere, r: Ray) -> int { r.orig.z - s.center.z }

/// The coefficients of `a t^2 + 2 half_b t + c = 0` over raw values.
pub open spec fn quad_a(r: Ray) -> int {
    r.dir.x * r.dir.x + r.dir.y * r.dir.y + r.dir.z * r.dir.z
}

pub open spec fn quad_half_b(s: Sphere, r: Ray) -> int {
    oc_x(s, r) * r.dir.x + oc_y(s, r) * r.dir.y + oc_z(s, r) * r.dir.z
}

pub open spec fn quad_c(s: Sphere, r: Ray) -> int {
    oc_x(s, r) * oc_x(s, r) + oc_y(s, r) * oc_y(s, r) + oc_z(s, r) * oc_z(s, r) - s.radius * s.radius
}

pub open spec fn discriminant(s: Sphere, r: Ray) -> int {
    quad_half_b(s, r) * quad_half_b(s, r) - quad_a(r) * quad_c(s, r)
}

pub open spec fn disc_root(s: Sphere, r: Ray) -> int {
    sqrt_of(discriminant(s, r))
}

/// The nearer and the farther root, as fixed-point ray parameters.
pub open spec fn t_near(s: Sphere, r: Ray) -> int {
    clamp(tdiv_pos((-quad_half_b(s, r) - disc_root(s, r)) * SCALE, quad_a(r)))
}

pub open spec fn t_far(s: Sphere, r: Ray) -> int {
    clamp(tdiv_pos((-quad_half_b(s, r) + disc_root(s, r)) * SCALE, quad_a(r)))
}

/// The root that the intersection test takes in `(t_min, t_max)`.
pub open spec fn hit_t(s: Sphere, r: Ray, t_min: int, t_max: int) -> Option<int> {
    if quad_a(r) == 0 || discriminant(s, r) < 0 {
        None
    } else if t_min < t_near(s, r) < t_max {
        Some(t_near(s, r))
    } else if t_min < t_far(s, r) < t_max {
        Some(t_far(s, r))
    } else {
        None
    }
}

pub open spec fn record_at(s: Sphere, r: Ray, t: int) -> HitRecord {
    let p = at_spec(r, t);
    let outward = vdiv(vsub(p, s.center), s.radius as int);
    let front = dot_spec(r.dir, outward) < 0;
    HitRecord { p, normal: if front { outward } else { vneg(outward) }, t: t as i64, front_face: front, mat: s.mat }
}

/// A hit whose point lies outside the world box counts as a miss.
pub open spec fn sphere_hit(s: Sphere, r: Ray, t_min: int, t_max: int) -> Option<HitRecord> {
    match hit_t(s, r, t_min, t_max) {
        None => None,
        Some(t) => {
            let rec = record_at(s, r, t);
            if in_world(rec.p) { Some(rec) } else { None }
        },
    }
}

/// The nearest hit among the first `n` spheres, each later sphere searched
/// only up to the nearest hit so far.
pub open spec fn scan_hit(objs: Seq<Sphere>, r: Ray, t_min: int, t_max: int, n: int) -> Option<HitRecord>
    decreases n,
{
    if n <= 0 {
        None
    } else {
        let prev = scan_hit(objs, r, t_min, t_max, n - 1);
        let bound = match prev {
            Some(h) => h.t as int,
            None => t_max,
        };
        match sphere_hit(objs[n - 1], r, t_min, bound) {
            Some(h) => Some(h),
            None => prev,
        }
    }
}

/// A sphere hit lies on the ray, inside the interval, and its normal is the
/// radius direction `(p - center) / radius`, turned against the ray.
pub proof fn lemma_hit_is_radial(s: Sphere, r: Ray, t_min: int, t_max: int)
    requires
        sphere_hit(s, r, t_min, t_max) is Some,
    ensures
        ({
            let h = sphere_hit(s, r, t_min, t_max)->0;
            let radial = vdiv(vsub(h.p, s.center), s.radius as int);
            &&& h.p == at_spec(r, h.t as int)
            &&& t_min < h.t < t_max
            &&& h.normal == radial || h.normal == vneg(radial)
            &&& h.front_face <==> h.normal == radial && dot_spec(r.dir, radial) < 0
        }),
{
}

/// A ray from outside a sphere aimed at its center hits it at distance
/// `|radius|` from the center: for a radius between 1/4 and 16, a ray
/// `o + t (center - o)` whose direction has components below 16 and whose
/// origin lies more than 64 raw units outside, the hit point's distance
/// from the center is `|radius|` to within 40 raw units (about 0.0006).
pub proof fn lemma_hit_on_sphere(s: Sphere, o: Vec3)
    requires
        s.wf(),
        in_world(o),
        -0x10_0000 <= s.center.x - o.x <= 0x10_0000,
        -0x10_0000 <= s.center.y - o.y <= 0x10_0000,
        -0x10_0000 <= s.center.z - o.z <= 0x10_0000,
        SCALE / 4 <= abs(s.radius as int) <= 16 * SCALE,
        dot_raw(vsub(s.center, o), vsub(s.center, o)) >= (abs(s.radius as int) + 64) * (abs(s.radius as int) + 64),
    ensures
        ({
            let r = Ray { orig: o, dir: vsub(s.center, o) };
            &&& sphere_hit(s, r, 0, LIMIT as int) is Some
            &&& abs(s.radius as int) - 3 <= length_spec(vsub(sphere_hit(s, r, 0, LIMIT as int)->0.p, s.center))
                <= abs(s.radius as int) + 40
        }),
{
    let sc = SCALE as int;
    let r = Ray { orig: o, dir: vsub(s.center, o) };
    let (dx, dy, dz) = (s.center.x - o.x, s.center.y - o.y, s.center.z - o.z);
    assert(r.dir.x == dx && r.dir.y == dy && r.dir.z == dz);
    let rad = s.radius as int;
    let rr = abs(rad);
    lemma_abs_square(rad);
    let dd = quad_a(r);
    assert(dd == dx * dx + dy * dy + dz * dz);
    assert(dd <= 3 * 0x100_0000_0000) by (nonlinear_arith)
        requires
            dd == dx * dx + dy * dy + dz * dz,
            -0x10_0000 <= dx <= 0x10_0000,
            -0x10_0000 <= dy <= 0x10_0000,
            -0x10_0000 <= dz <= 0x10_0000,
    ;
    assert(quad_half_b(s, r) == -dd) by (nonlinear_arith)
        requires
            quad_half_b(s, r) == (-dx) * dx + (-dy) * dy + (-dz) * dz,
            dd == dx * dx + dy * dy + dz * dz,
    ;
    assert(quad_c(s, r) == dd - rr * rr) by (nonlinear_arith)
        requires
            quad_c(s, r) == (-dx) * (-dx) + (-dy) * (-dy) + (-dz) * (-dz) - rad * rad,
            dd == dx * dx + dy * dy + dz * dz,
            rr * rr == rad * rad,
    ;
    let disc = discriminant(s, r);
    assert(disc == dd * (rr * rr)) by (nonlinear_arith)
        requires
            disc == (-dd) * (-dd) - dd * (dd - rr * rr),
    ;
    // the integer root of the distance squared
    fixed::lemma_isqrt_exists(dd);
    let g = sqrt_of(dd);
    assert(g >= rr + 64) by (nonlinear_arith)
        requires
            dd < (g + 1) * (g + 1),
            dd >= (rr + 64) * (rr + 64),
            g >= 0,
            rr >= 0,
    ;
    assert(g < 0x20_0000) by (nonlinear_arith)
        requires
            g * g <= dd,
            dd <= 3 * 0x100_0000_0000,
            g >= 0,
    ;
    // the root of the discriminant lies between g |R| and (g + 1) |R|
    assert(disc >= 0) by (nonlinear_arith)
        requires
            disc == dd * (rr * rr),
            dd >= 0,
    ;
    fixed::lemma_isqrt_exists(disc);
    let rt = disc_root(s, r);
    assert(g * rr <= rt <= (g + 1) * rr) by (nonlinear_arith)
        requires
            rt * rt <= dd * (rr * rr) < (rt + 1) * (rt + 1),
            g * g <= dd < (g + 1) * (g + 1),
            g >= 0,
            rr >= 0,
            rt >= 0,
    {
        assert(g * rr * (g * rr) <= dd * (rr * rr)) by (nonlinear_arith)
            requires
                g * g <= dd,
                rr >= 0,
        ;
        assert(dd * (rr * rr) <= (g + 1) * rr * ((g + 1) * rr)) by (nonlinear_arith)
            requires
                dd < (g + 1) * (g + 1),
                rr >= 0,
        ;
        if rt < g * rr {
            assert((rt + 1) * (rt + 1) <= g * rr * (g * rr)) by (nonlinear_arith)
                requires
                    0 <= rt + 1 <= g * rr,
            ;
        }
        if rt > (g + 1) * rr {
            assert(rt * rt > (g + 1) * rr * ((g + 1) * rr)) by (nonlinear_arith)
                requires
                    rt > (g + 1) * rr >= 0,
            ;
        }
    }
    // the nearer root is in (0, 1] of the way to the center
    assert(rt * sc <= dd * (sc - 1)) by (nonlinear_arith)
        requires
            rt <= (g + 1) * rr,
            g * g <= dd,
            g >= rr + 64,
            rr <= 16 * sc,
            rr >= 0,
            sc == 65536,
    {
        assert((g + 1) * rr * sc <= g * g * (sc - 1)) by (nonlinear_arith)
            requires
                g >= rr + 64,
                0 <= rr <= 16 * sc,
                sc == 65536,
        ;
        assert(g * g * (sc - 1) <= dd * (sc - 1)) by (nonlinear_arith)
            requires
                g * g <= dd,
                sc == 65536,
        ;
        assert(rt * sc <= (g + 1) * rr * sc) by (nonlinear_arith)
            requires
                rt <= (g + 1) * rr,
                sc > 0,
        ;
    }
    let n = (dd - rt) * sc;
    assert(-quad_half_b(s, r) - rt == dd - rt);
    assert(dd > 0);
    lemma_tdiv_pos_close(n, dd);
    let t = tdiv(n, dd);
    assert(tdiv_pos(n, dd) == t);
    assert(1 <= t <= sc) by (nonlinear_arith)
        requires
            0 <= n - dd * t < dd,
            n == (dd - rt) * sc,
            rt * sc <= dd * (sc - 1),
            rt >= 0,
            dd > 0,
            sc == 65536,
    ;
    assert(t_near(s, r) == t);
    assert(hit_t(s, r, 0, LIMIT as int) == Some(t));
    let u = sc - t;
    assert(rt * sc <= u * dd < rt * sc + dd) by (nonlinear_arith)
        requires
            0 <= n - dd * t < dd,
            n == (dd - rt) * sc,
            u == sc - t,
    ;
    // the hit point, one component at a time
    let ex = lemma_step_toward(dx, t, o.x as int, s.center.x as int);
    let ey = lemma_step_toward(dy, t, o.y as int, s.center.y as int);
    let ez = lemma_step_toward(dz, t, o.z as int, s.center.z as int);
    let h = record_at(s, r, t);
    let p = h.p;
    assert(in_world(p));
    assert(sphere_hit(s, r, 0, LIMIT as int) == Some(h));
    let w = vsub(p, s.center);
    assert(w.x == p.x - s.center.x && w.y == p.y - s.center.y && w.z == p.z - s.center.z);
    // s w_i == -(d_i u + e_i), where d_i e_i >= 0 and |e_i| < s
    let (wx, wy, wz) = (w.x as int, w.y as int, w.z as int);
    let big_w = dot_raw(w, w);
    lemma_component_square(dx, u, ex, sc);
    lemma_component_square(dy, u, ey, sc);
    lemma_component_square(dz, u, ez, sc);
    vec3::lemma_square_scaled(sc, wx);
    vec3::lemma_square_scaled(sc, wy);
    vec3::lemma_square_scaled(sc, wz);
    vec3::lemma_sum3_scaled(sc * sc, wx * wx, wy * wy, wz * wz);
    assert(sc * sc * big_w == (sc * wx) * (sc * wx) + (sc * wy) * (sc * wy) + (sc * wz) * (sc * wz));
    assert((sc * wx) * (sc * wx) == (dx * u + ex) * (dx * u + ex)) by (nonlinear_arith)
        requires
            sc * wx == -(dx * u + ex),
    ;
    assert((sc * wy) * (sc * wy) == (dy * u + ey) * (dy * u + ey)) by (nonlinear_arith)
        requires
            sc * wy == -(dy * u + ey),
    ;
    assert((sc * wz) * (sc * wz) == (dz * u + ez) * (dz * u + ez)) by (nonlinear_arith)
        requires
            sc * wz == -(dz * u + ez),
    ;
    let sum_abs = abs(dx) + abs(dy) + abs(dz);
    vec3::lemma_sum3_scaled(u * u, dx * dx, dy * dy, dz * dz);
    assert(u * u * dd == dx * dx * (u * u) + dy * dy * (u * u) + dz * dz * (u * u)) by (nonlinear_arith)
        requires
            u * u * dd == u * u * (dx * dx) + u * u * (dy * dy) + u * u * (dz * dz),
            dd == dx * dx + dy * dy + dz * dz,
    ;
    assert(2 * u * (abs(dx) * sc) + 2 * u * (abs(dy) * sc) + 2 * u * (abs(dz) * sc) == 2 * u * sc * sum_abs)
        by (nonlinear_arith)
        requires
            sum_abs == abs(dx) + abs(dy) + abs(dz),
    ;
    assert(u * u * dd <= sc * sc * big_w <= u * u * dd + 2 * u * sc * sum_abs + 3 * (sc * sc));
    // Cauchy-Schwarz: the sum of magnitudes is below 2 (g + 1)
    lemma_abs_square(dx);
    lemma_abs_square(dy);
    lemma_abs_square(dz);
    let (px, py, pz) = (abs(dx), abs(dy), abs(dz));
    assert(sum_abs * sum_abs <= 3 * (px * px + py * py + pz * pz)) by (nonlinear_arith)
        requires
            sum_abs == px + py + pz,
    {
        assert((px - py) * (px - py) >= 0) by (nonlinear_arith);
        assert((py - pz) * (py - pz) >= 0) by (nonlinear_arith);
        assert((px - pz) * (px - pz) >= 0) by (nonlinear_arith);
    }
    assert(sum_abs < 2 * (g + 1)) by (nonlinear_arith)
        requires
            sum_abs * sum_abs <= 3 * dd,
            dd < (g + 1) * (g + 1),
            sum_abs >= 0,
            g >= 0,
    ;
    // from below
    assert(sc * sc * big_w * dd >= (u * dd) * (u * dd)) by (nonlinear_arith)
        requires
            u * u * dd <= sc * sc * big_w,
            dd > 0,
    ;
    assert((u * dd) * (u * dd) >= (rt * sc) * (rt * sc)) by (nonlinear_arith)
        requires
            rt * sc <= u * dd,
            rt >= 0,
            sc > 0,
    ;
    assert(big_w * dd > dd * (rr * rr) - 2 * rt - 1) by (nonlinear_arith)
        requires
            sc * sc * big_w * dd >= (rt * sc) * (rt * sc),
            dd * (rr * rr) < (rt + 1) * (rt + 1),
            sc > 0,
    ;
    assert(big_w > rr * rr - 3) by (nonlinear_arith)
        requires
            big_w * dd > dd * (rr * rr) - 2 * rt - 1,
            rt * sc <= dd * (sc - 1),
            rt >= 0,
            dd > 0,
            sc == 65536,
    ;
    // from above
    assert(0 <= u * dd) by (nonlinear_arith)
        requires
            u >= 0,
            dd > 0,
    ;
    assert((u * dd) * (u * dd) < (rt * sc + dd) * (rt * sc + dd)) by (nonlinear_arith)
        requires
            0 <= u * dd < rt * sc + dd,
    ;
    assert(sc * sc * big_w * dd <= (u * dd) * (u * dd) + 2 * (u * dd) * sc * sum_abs + 3 * (sc * sc) * dd)
        by (nonlinear_arith)
        requires
            sc * sc * big_w <= u * u * dd + 2 * u * sc * sum_abs + 3 * (sc * sc),
            dd > 0,
    ;
    assert(2 * (u * dd) * sc * sum_abs <= 4 * sc * (g + 1) * (rt * sc + dd)) by (nonlinear_arith)
        requires
            0 <= u * dd < rt * sc + dd,
            0 <= sum_abs < 2 * (g + 1),
            sc > 0,
    ;
    assert((rt * sc + dd) * (rt * sc + dd) <= dd * (rr * rr) * (sc * sc) + 64 * rr * (sc * sc) * dd + 768 * (sc * sc) * dd)
        by (nonlinear_arith)
        requires
            rt * rt <= dd * (rr * rr),
            0 <= rt <= (g + 1) * rr,
            g + 1 <= 32 * sc,
            0 < dd <= 768 * (sc * sc),
            rr >= 0,
            sc > 0,
    {
        assert((rt * sc) * (rt * sc) <= dd * (rr * rr) * (sc * sc)) by (nonlinear_arith)
            requires
                rt * rt <= dd * (rr * rr),
        ;
        assert(2 * (rt * sc) * dd <= 64 * rr * (sc * sc) * dd) by (nonlinear_arith)
            requires
                0 <= rt <= (g + 1) * rr,
                g + 1 <= 32 * sc,
                dd > 0,
                rr >= 0,
                sc > 0,
        ;
        assert(dd * dd <= 768 * (sc * sc) * dd) by (nonlinear_arith)
            requires
                0 < dd <= 768 * (sc * sc),
        ;
    }
    assert(4 * sc * (g + 1) * (rt * sc + dd) <= 16 * rr * (sc * sc) * dd + 128 * (sc * sc) * dd) by (nonlinear_arith)
        requires
            0 <= rt <= (g + 1) * rr,
            g * g <= dd,
            g >= 1,
            g + 1 <= 32 * sc,
            dd > 0,
            rr >= 0,
            sc > 0,
    {
        assert((g + 1) * rt <= 4 * dd * rr) by (nonlinear_arith)
            requires
                0 <= rt <= (g + 1) * rr,
                g * g <= dd,
                g >= 1,
                rr >= 0,
        ;
        assert(4 * sc * (g + 1) * (rt * sc) <= 16 * rr * (sc * sc) * dd) by (nonlinear_arith)
            requires
                (g + 1) * rt <= 4 * dd * rr,
                sc > 0,
        ;
        assert(4 * sc * (g + 1) * dd <= 128 * (sc * sc) * dd) by (nonlinear_arith)
            requires
                g + 1 <= 32 * sc,
                dd > 0,
                sc > 0,
        ;
    }
    let kk = (sc * sc) * dd;
    assert(dd * (rr * rr) * (sc * sc) == kk * (rr * rr)) by (nonlinear_arith)
        requires
            kk == (sc * sc) * dd,
    ;
    assert(64 * rr * (sc * sc) * dd == 64 * (rr * kk) && 16 * rr * (sc * sc) * dd == 16 * (rr * kk)) by (nonlinear_arith)
        requires
            kk == (sc * sc) * dd,
    ;
    assert(768 * (sc * sc) * dd == 768 * kk && 128 * (sc * sc) * dd == 128 * kk && 3 * (sc * sc) * dd == 3 * kk)
        by (nonlinear_arith)
        requires
            kk == (sc * sc) * dd,
    ;
    assert(kk * ((rr + 40) * (rr + 40)) == kk * (rr * rr) + 80 * (rr * kk) + 1600 * kk) by (nonlinear_arith);
    assert(kk > 0) by (nonlinear_arith)
        requires
            kk == (sc * sc) * dd,
            dd > 0,
            sc > 0,
    ;
    assert(sc * sc * big_w * dd < (sc * sc) * dd * ((rr + 40) * (rr + 40)));
    assert(big_w < (rr + 40) * (rr + 40)) by (nonlinear_arith)
        requires
            sc * sc * big_w * dd < (sc * sc) * dd * ((rr + 40) * (rr + 40)),
            dd > 0,
            sc > 0,
    ;
    // the length
    assert(big_w >= 0) by (nonlinear_arith)
        requires
            big_w == wx * wx + wy * wy + wz * wz,
    ;
    lemma_tdiv_pos_close(big_w, sc);
    let lsw = tdiv(big_w, sc);
    assert(0 <= lsw <= 0x1_0000_0000) by (nonlinear_arith)
        requires
            0 <= sc * lsw <= big_w,
            big_w < (rr + 40) * (rr + 40),
            0 <= rr <= 16 * sc,
            sc == 65536,
    ;
    assert(length_squared_spec(w) == lsw);
    fixed::lemma_isqrt_exists(lsw * sc);
    let lw = length_spec(w);
    assert(is_isqrt(lsw * sc, lw));
    assert(rr - 3 <= lw <= rr + 40) by (nonlinear_arith)
        requires
            lw * lw <= lsw * sc < (lw + 1) * (lw + 1),
            0 <= big_w - sc * lsw < sc,
            rr * rr - 3 < big_w < (rr + 40) * (rr + 40),
            4 * rr >= sc,
            lw >= 0,
            rr >= 0,
            sc == 65536,
    ;
}

proof fn lemma_component_square(d: int, u: int, e: int, sc: int)
    requires
        0 <= d * e,
        -sc < e < sc,
        u >= 0,
        sc > 0,
    ensures
        d * d * (u * u) <= (d * u + e) * (d * u + e) <= d * d * (u * u) + 2 * u * (abs(d) * sc) + sc * sc,
{
    assert(d * d * (u * u) <= (d * u + e) * (d * u + e)) by (nonlinear_arith)
        requires
            0 <= d * e,
            u >= 0,
    ;
    assert(d * e <= abs(d) * sc) by (nonlinear_arith)
        requires
            0 <= d * e,
            -sc < e < sc,
            abs(d) == if d < 0 { -d } else { d },
    ;
    assert(e * e < sc * sc) by (nonlinear_arith)
        requires
            -sc < e < sc,
    ;
    assert((d * u + e) * (d * u + e) == d * d * (u * u) + 2 * u * (d * e) + e * e) by (nonlinear_arith);
    assert(2 * u * (d * e) <= 2 * u * (abs(d) * sc)) by (nonlinear_arith)
        requires
            d * e <= abs(d) * sc,
            u >= 0,
    ;
}

/// One component of a step of `t / SCALE` from `o` toward `c`: the point is
/// `o + q` with `q` rounded toward zero, lies between `o` and `c`, and
/// `SCALE (o + q - c) == -((c - o) (SCALE - t) + e)` with `e` of the sign of
/// `c - o` and below `SCALE` in magnitude.
proof fn lemma_step_toward(d: int, t: int, o: int, c: int) -> (e: int)
    requires
        d == c - o,
        -0x10_0000 <= d <= 0x10_0000,
        1 <= t <= SCALE,
    ensures
        mul_spec(d, t) == tdiv(d * t, SCALE as int),
        ({
            let q = tdiv(d * t, SCALE as int);
            &&& (d >= 0 ==> 0 <= q <= d) && (d < 0 ==> d <= q <= 0)
            &&& SCALE * (o + q - c) == -(d * (SCALE - t) + e)
            &&& 0 <= d * e
            &&& -SCALE < e < SCALE
        }),
{
    let sc = SCALE as int;
    let m = d * t;
    assert(-0x10_0000 * sc <= m <= 0x10_0000 * sc) by (nonlinear_arith)
        requires
            m == d * t,
            -0x10_0000 <= d <= 0x10_0000,
            1 <= t <= sc,
    ;
    lemma_tdiv_pos_close(m, sc);
    let q = tdiv(m, sc);
    assert(-0x10_0000 <= q <= 0x10_0000) by (nonlinear_arith)
        requires
            -0x10_0000 * sc <= m <= 0x10_0000 * sc,
            m >= 0 ==> 0 <= sc * q <= m,
            m < 0 ==> m <= sc * q <= 0,
            sc > 0,
    ;
    let e = m - sc * q;
    if d >= 0 {
        assert(0 <= m <= d * sc) by (nonlinear_arith)
            requires
                m == d * t,
                d >= 0,
                1 <= t <= sc,
        ;
        assert(0 <= q <= d) by (nonlinear_arith)
            requires
                0 <= sc * q <= m <= d * sc,
                sc > 0,
        ;
        assert(0 <= d * e) by (nonlinear_arith)
            requires
                0 <= e,
                d >= 0,
        ;
    } else {
        assert(d * sc <= m < 0) by (nonlinear_arith)
            requires
                m == d * t,
                d < 0,
                1 <= t <= sc,
        ;
        assert(d <= q <= 0) by (nonlinear_arith)
            requires
                d * sc <= m <= sc * q <= 0,
                sc > 0,
        ;
        assert(0 <= d * e) by (nonlinear_arith)
            requires
                e <= 0,
                d < 0,
        ;
    }
    assert(sc * (o + q - c) == -(d * (sc - t) + e)) by (nonlinear_arith)
        requires
            d == c - o,
            e == d * t - sc * q,
    ;
    e
}

impl HitRecord {
    pub open spec fn wf(&self) -> bool {
        self.p.wf() && in_world(self.p) && self.normal.wf() && self.mat.wf()
    }
}

proof fn lemma_quad_bounds(s: Sphere, r: Ray)
    requires
        s.wf(),
        r.in_world(),
    ensures
        0 <= quad_a(r) <= 3 * 0x1000_0000_0000_0000,
        -3 * 0x2000_0000_0000_0000 <= quad_half_b(s, r) <= 3 * 0x2000_0000_0000_0000,
        -0x1000_0000_0000_0000 <= quad_c(s, r) <= 3 * 0x4000_0000_0000_0000,
        -0x8000_0000_0000_0000_0000_0000_0000_0000 < discriminant(s, r) < 0x8000_0000_0000_0000_0000_0000_0000_0000,
        0 <= r.dir.x * r.dir.x <= 0x1000_0000_0000_0000,
        0 <= r.dir.y * r.dir.y <= 0x1000_0000_0000_0000,
        0 <= r.dir.z * r.dir.z <= 0x1000_0000_0000_0000,
        0 <= oc_x(s, r) * oc_x(s, r) <= 0x4000_0000_0000_0000,
        0 <= oc_y(s, r) * oc_y(s, r) <= 0x4000_0000_0000_0000,
        0 <= oc_z(s, r) * oc_z(s, r) <= 0x4000_0000_0000_0000,
        0 <= s.radius * s.radius <= 0x1000_0000_0000_0000,
        -0x2000_0000_0000_0000 <= oc_x(s, r) * r.dir.x <= 0x2000_0000_0000_0000,
        -0x2000_0000_0000_0000 <= oc_y(s, r) * r.dir.y <= 0x2000_0000_0000_0000,
        -0x2000_0000_0000_0000 <= oc_z(s, r) * r.dir.z <= 0x2000_0000_0000_0000,
        0 <= quad_half_b(s, r) * quad_half_b(s, r) <= 36 * 0x1000000000000000000000000000000,
        -3 * 0x1000000000000000000000000000000 <= quad_a(r) * quad_c(s, r) <= 36 * 0x1000000000000000000000000000000,
{
    let (ox, oy, oz) = (oc_x(s, r), oc_y(s, r), oc_z(s, r));
    let (dx, dy, dz) = (r.dir.x as int, r.dir.y as int, r.dir.z as int);
    let w: int = 0x4000_0000;
    let rad = s.radius as int;
    assert(-2 * w <= ox <= 2 * w && -2 * w <= oy <= 2 * w && -2 * w <= oz <= 2 * w);
    assert(0 <= dx * dx <= w * w && 0 <= dy * dy <= w * w && 0 <= dz * dz <= w * w) by (nonlinear_arith)
        requires
            -w <= dx <= w,
            -w <= dy <= w,
            -w <= dz <= w,
    ;
    assert(0 <= ox * ox <= 4 * w * w && 0 <= oy * oy <= 4 * w * w && 0 <= oz * oz <= 4 * w * w) by (nonlinear_arith)
        requires
            -2 * w <= ox <= 2 * w,
            -2 * w <= oy <= 2 * w,
            -2 * w <= oz <= 2 * w,
    ;
    assert(0 <= rad * rad <= w * w) by (nonlinear_arith)
        requires
            -w <= rad <= w,
    ;
    assert(-2 * w * w <= ox * dx <= 2 * w * w && -2 * w * w <= oy * dy <= 2 * w * w && -2 * w * w <= oz * dz <= 2 * w * w)
        by (nonlinear_arith)
        requires
            -2 * w <= ox <= 2 * w,
            -2 * w <= oy <= 2 * w,
            -2 * w <= oz <= 2 * w,
            -w <= dx <= w,
            -w <= dy <= w,
            -w <= dz <= w,
    ;
    let hb = quad_half_b(s, r);
    let a = quad_a(r);
    let c = quad_c(s, r);
    assert(0 <= hb * hb <= 36 * w * w * w * w) by (nonlinear_arith)
        requires
            -6 * w * w <= hb <= 6 * w * w,
    ;
    assert(-3 * w * w * w * w <= a * c <= 36 * w * w * w * w) by (nonlinear_arith)
        requires
            0 <= a <= 3 * w * w,
            -w * w <= c <= 12 * w * w,
    ;
}

impl Sphere {
    pub open spec fn wf(&self) -> bool {
        in_world(self.center) && self.radius != 0 && -WORLD <= self.radius <= WORLD && self.mat.wf()
    }

    pub fn new(center: Vec3, radius: i64, mat: Material) -> (r: Sphere)
        ensures
            r == (Sphere { center, radius, mat }),
    {
        Sphere { center, radius, mat }
    }

    /// The hit of `r` with this sphere at a parameter in `(t_min, t_max)`:
    /// the nearer root if it lies there, else the farther one.
    pub fn hit(&self, r: &Ray, t_min: i64, t_max: i64) -> (res: Option<HitRecord>)
        requires
            self.wf(),
            r.in_world(),
        ensures
            res == sphere_hit(*self, *r, t_min as int, t_max as int),
            res is Some ==> res->0.wf() && t_min < res->0.t < t_max,
    {
        proof {
            lemma_quad_bounds(*self, *r);
        }
        let ox: i128 = r.orig.x as i128 - self.center.x as i128;
        let oy: i128 = r.orig.y as i128 - self.center.y as i128;
        let oz: i128 = r.orig.z as i128 - self.center.z as i128;
        let dx: i128 = r.dir.x as i128;
        let dy: i128 = r.dir.y as i128;
        let dz: i128 = r.dir.z as i128;
        let rad: i128 = self.radius as i128;
        let a: i128 = dx * dx + dy * dy + dz * dz;
        let half_b: i128 = ox * dx + oy * dy + oz * dz;
        let c: i128 = ox * ox + oy * oy + oz * oz - rad * rad;
        let disc: i128 = half_b * half_b - a * c;
        if a == 0 || disc < 0 {
            return None;
        }
        let root: i128 = fixed::isqrt_wide(disc as u128) as i128;
        proof {
            fixed::lemma_isqrt_unique(disc as int, root as int, disc_root(*self, *r));
        }
        let near = fixed::clamp_wide(fixed::div_toward_zero((-half_b - root) * (SCALE as i128), a));
        let t = if t_min < near && near < t_max {
            near
        } else {
            let far = fixed::clamp_wide(fixed::div_toward_zero((-half_b + root) * (SCALE as i128), a));
            if t_min < far && far < t_max {
                far
            } else {
                return None;
            }
        };
        let p = r.at(t);
        if !within_world(p) {
            return None;
        }
        let outward = p.sub(self.center).div(self.radius);
        let front_face = r.dir.dot(outward) < 0;
        let normal = if front_face { outward } else { outward.neg() };
        Some(HitRecord { p, normal, t, front_face, mat: self.mat })
    }
}

/// A scene: spheres searched in order for the nearest hit.
pub struct HittableList {
    pub objects: Vec<Sphere>,
}

impl HittableList {
    pub open spec fn wf(&self) -> bool {
        forall|i: int| 0 <= i < self.objects@.len() ==> (#[trigger] self.objects@[i]).wf()
    }

    pub fn new(objects: Vec<Sphere>) -> (r: HittableList)
        ensures
            r.objects@ == objects@,
    {
        HittableList { objects }
    }

    pub fn add(&mut self, s: Sphere)
        ensures
            final(self).objects@ == old(self).objects@.push(s),
    {
        self.objects.push(s);
    }

    /// The nearest hit of `r` in `(t_min, t_max)` over all spheres.
    pub fn hit(&self, r: &Ray, t_min: i64, t_max: i64) -> (res: Option<HitRecord>)
        requires
            self.wf(),
            r.in_world(),
        ensures
            res == scan_hit(self.objects@, *r, t_min as int, t_max as int, self.objects@.len() as int),
            res is Some ==> res->0.wf() && t_min < res->0.t < t_max,
    {
        let mut best: Option<HitRecord> = None;
        let mut closest: i64 = t_max;
        let mut i: usize = 0;
        while i < self.objects.len()
            invariant
                self.wf(),
                r.in_world(),
                i <= self.objects@.len(),
                best == scan_hit(self.objects@, *r, t_min as int, t_max as int, i as int),
                closest == (match best { Some(h) => h.t as int, None => t_max as int }),
                best is Some ==> best->0.wf() && t_min < best->0.t < t_max,
            decreases self.objects@.len() - i,
        {
            if let Some(rec) = self.objects[i].hit(r, t_min, closest) {
                closest = rec.t;
                best = Some(rec);
            }
            i = i + 1;
        }
        best
    }
}

} // verus!
