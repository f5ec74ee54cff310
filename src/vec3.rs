//! Three-component fixed-point vectors: points, directions and colors.
use vstd::prelude::*;
use vstd::arithmetic::div_mod::{lemma_fundamental_div_mod, lemma_mod_pos_bound};
use vstd::arithmetic::mul::{lemma_mul_is_associative, lemma_mul_is_commutative, lemma_mul_is_distributive_add};
use crate::fixed::{self, SCALE, LIMIT, in_range, clamp, tdiv, add_spec, sub_spec, mul_spec, div_spec, sqrt_spec, is_isqrt};

verus! {

/// A component magnitude below this counts as zero.
pub const NEAR_ZERO: i64 = 2;

#[derive(Clone, Copy, Debug, PartialEq, Eq, Structural)]
pub struct Vec3 {
    pub x: i64,
    pub y: i64,
    pub z: i64,
}

pub open spec fn v3(x: int, y: int, z: int) -> Vec3 {
    Vec3 { x: x as i64, y: y as i64, z: z as i64 }
}

pub open spec fn vadd(a: Vec3, b: Vec3) -> Vec3 {
    v3(add_spec(a.x as int, b.x as int), add_spec(a.y as int, b.y as int), add_spec(a.z as int, b.z as int))
}

pub open spec fn vsub(a: Vec3, b: Vec3) -> Vec3 {
    v3(sub_spec(a.x as int, b.x as int), sub_spec(a.y as int, b.y as int), sub_spec(a.z as int, b.z as int))
}

pub open spec fn vneg(a: Vec3) -> Vec3 {
    v3(-a.x, -a.y, -a.z)
}

pub open spec fn vscale(a: Vec3, k: int) -> Vec3 {
    v3(mul_spec(a.x as int, k), mul_spec(a.y as int, k), mul_spec(a.z as int, k))
}

pub open spec fn vdiv(a: Vec3, k: int) -> Vec3 {
    v3(div_spec(a.x as int, k), div_spec(a.y as int, k), div_spec(a.z as int, k))
}

pub open spec fn vmul(a: Vec3, b: Vec3) -> Vec3 {
    v3(mul_spec(a.x as int, b.x as int), mul_spec(a.y as int, b.y as int), mul_spec(a.z as int, b.z as int))
}

/// The exact dot product of the raw components (scaled by `SCALE` squared).
pub open spec fn dot_raw(a: Vec3, b: Vec3) -> int {
    a.x * b.x + a.y * b.y + a.z * b.z
}

pub open spec fn dot_spec(a: Vec3, b: Vec3) -> int {
    clamp(tdiv(dot_raw(a, b), SCALE as int))
}

pub open spec fn cross_spec(a: Vec3, b: Vec3) -> Vec3 {
    v3(
        clamp(tdiv(a.y * b.z - a.z * b.y, SCALE as int)),
        clamp(tdiv(a.z * b.x - a.x * b.z, SCALE as int)),
        clamp(tdiv(a.x * b.y - a.y * b.x, SCALE as int)),
    )
}

pub open spec fn length_squared_spec(a: Vec3) -> int {
    dot_spec(a, a)
}

pub open spec fn length_spec(a: Vec3) -> int {
    sqrt_spec(length_squared_spec(a))
}

pub open spec fn unit_spec(a: Vec3) -> Vec3 {
    vdiv(a, length_spec(a))
}

/// Mirror reflection of `v` about the normal `n`: `v - 2 (v . n) n`.
pub open spec fn reflect_spec(v: Vec3, n: Vec3) -> Vec3 {
    let d = dot_spec(v, n);
    vsub(v, vscale(n, add_spec(d, d)))
}

pub open spec fn near_zero_spec(a: Vec3) -> bool {
    -NEAR_ZERO < a.x < NEAR_ZERO && -NEAR_ZERO < a.y < NEAR_ZERO && -NEAR_ZERO < a.z < NEAR_ZERO
}

/// The component of the refracted direction perpendicular to the normal.
pub open spec fn refract_perp_spec(uv: Vec3, n: Vec3, ratio: int) -> Vec3 {
    let c = dot_spec(vneg(uv), n);
    let cos_theta = if c > SCALE { SCALE as int } else { c };
    vscale(vadd(uv, vscale(n, cos_theta)), ratio)
}

/// Snell's law; `None` when no refracted direction exists.
pub open spec fn refract_spec(uv: Vec3, n: Vec3, ratio: int) -> Option<Vec3> {
    let perp = refract_perp_spec(uv, n, ratio);
    let rest = SCALE - length_squared_spec(perp);
    if rest < 0 {
        None
    } else {
        Some(vadd(perp, vscale(n, -sqrt_spec(rest))))
    }
}

impl Vec3 {
    /// Every component is a fixed-point value.
    pub open spec fn wf(&self) -> bool {
        in_range(self.x as int) && in_range(self.y as int) && in_range(self.z as int)
    }

    pub fn new(x: i64, y: i64, z: i64) -> (r: Vec3)
        ensures
            r == (Vec3 { x, y, z }),
    {
        Vec3 { x, y, z }
    }

    pub fn add(self, o: Vec3) -> (r: Vec3)
        requires
            self.wf(),
            o.wf(),
        ensures
            r == vadd(self, o),
            r.wf(),
    {
        Vec3 { x: fixed::fx_add(self.x, o.x), y: fixed::fx_add(self.y, o.y), z: fixed::fx_add(self.z, o.z) }
    }

    pub fn sub(self, o: Vec3) -> (r: Vec3)
        requires
            self.wf(),
            o.wf(),
        ensures
            r == vsub(self, o),
            r.wf(),
    {
        Vec3 { x: fixed::fx_sub(self.x, o.x), y: fixed::fx_sub(self.y, o.y), z: fixed::fx_sub(self.z, o.z) }
    }

    pub fn neg(self) -> (r: Vec3)
        requires
            self.wf(),
        ensures
            r == vneg(self),
            r.wf(),
    {
        Vec3 { x: -self.x, y: -self.y, z: -self.z }
    }

    /// Multiplies each component by the scalar `k`.
    pub fn scale(self, k: i64) -> (r: Vec3)
        requires
            self.wf(),
            in_range(k as int),
        ensures
            r == vscale(self, k as int),
            r.wf(),
    {
        Vec3 { x: fixed::fx_mul(self.x, k), y: fixed::fx_mul(self.y, k), z: fixed::fx_mul(self.z, k) }
    }

    /// Divides each component by the nonzero scalar `k`.
    pub fn div(self, k: i64) -> (r: Vec3)
        requires
            self.wf(),
            in_range(k as int),
            k != 0,
        ensures
            r == vdiv(self, k as int),
            r.wf(),
    {
        Vec3 { x: fixed::fx_div(self.x, k), y: fixed::fx_div(self.y, k), z: fixed::fx_div(self.z, k) }
    }

    /// Componentwise product, used to tint colors.
    pub fn elemul(self, o: Vec3) -> (r: Vec3)
        requires
            self.wf(),
            o.wf(),
        ensures
            r == vmul(self, o),
            r.wf(),
    {
        Vec3 { x: fixed::fx_mul(self.x, o.x), y: fixed::fx_mul(self.y, o.y), z: fixed::fx_mul(self.z, o.z) }
    }

    pub fn dot(self, o: Vec3) -> (r: i64)
        requires
            self.wf(),
            o.wf(),
        ensures
            r == dot_spec(self, o),
            in_range(r as int),
    {
        proof {
            lemma_product3(self, o);
        }
        let s: i128 = self.x as i128 * o.x as i128 + self.y as i128 * o.y as i128 + self.z as i128 * o.z as i128;
        fixed::clamp_wide(fixed::div_toward_zero(s, SCALE as i128))
    }

    pub fn cross(self, o: Vec3) -> (r: Vec3)
        requires
            self.wf(),
            o.wf(),
        ensures
            r == cross_spec(self, o),
            r.wf(),
    {
        proof {
            lemma_product3(self, o);
        }
        let a: i128 = self.y as i128 * o.z as i128 - self.z as i128 * o.y as i128;
        let b: i128 = self.z as i128 * o.x as i128 - self.x as i128 * o.z as i128;
        let c: i128 = self.x as i128 * o.y as i128 - self.y as i128 * o.x as i128;
        Vec3 {
            x: fixed::clamp_wide(fixed::div_toward_zero(a, SCALE as i128)),
            y: fixed::clamp_wide(fixed::div_toward_zero(b, SCALE as i128)),
            z: fixed::clamp_wide(fixed::div_toward_zero(c, SCALE as i128)),
        }
    }

    pub fn length_squared(self) -> (r: i64)
        requires
            self.wf(),
        ensures
            r == length_squared_spec(self),
            0 <= r <= LIMIT,
    {
        proof {
            lemma_length_squared_nonneg(self);
        }
        self.dot(self)
    }

    pub fn length(self) -> (r: i64)
        requires
            self.wf(),
        ensures
            r == length_spec(self),
            is_isqrt(length_squared_spec(self) * SCALE, r as int),
            0 <= r <= LIMIT,
    {
        fixed::fx_sqrt(self.length_squared())
    }

    /// The vector divided by its length; the zero vector has none.
    pub fn unit_vector(self) -> (r: Option<Vec3>)
        requires
            self.wf(),
        ensures
            length_spec(self) == 0 <==> r is None,
            r is Some ==> r->0 == unit_spec(self) && r->0.wf(),
    {
        let len = self.length();
        if len == 0 {
            None
        } else {
            Some(self.div(len))
        }
    }

    /// Mirror reflection about the normal `n`.
    pub fn reflect(self, n: Vec3) -> (r: Vec3)
        requires
            self.wf(),
            n.wf(),
        ensures
            r == reflect_spec(self, n),
            r.wf(),
    {
        let d = self.dot(n);
        self.sub(n.scale(fixed::fx_add(d, d)))
    }

    /// Refraction of the unit direction `self` through a surface with unit
    /// normal `n`, for the ratio of refractive indices `ratio`.
    pub fn refract(self, n: Vec3, ratio: i64) -> (r: Option<Vec3>)
        requires
            self.wf(),
            n.wf(),
            in_range(ratio as int),
        ensures
            r == refract_spec(self, n, ratio as int),
            r is Some ==> r->0.wf(),
    {
        let c = self.neg().dot(n);
        let cos_theta = if c > SCALE { SCALE } else { c };
        let perp = self.add(n.scale(cos_theta)).scale(ratio);
        let rest = SCALE - perp.length_squared();
        if rest < 0 {
            None
        } else {
            let root = fixed::fx_sqrt(rest);
            Some(perp.add(n.scale(-root)))
        }
    }

    pub fn near_zero(self) -> (r: bool)
        ensures
            r == near_zero_spec(self),
    {
        -NEAR_ZERO < self.x && self.x < NEAR_ZERO && -NEAR_ZERO < self.y && self.y < NEAR_ZERO
            && -NEAR_ZERO < self.z && self.z < NEAR_ZERO
    }
}

/// The dot product is symmetric: `dot(a, b) == dot(b, a)`.
pub proof fn lemma_dot_symmetric(a: Vec3, b: Vec3)
    ensures
        dot_spec(a, b) == dot_spec(b, a),
{
    assert(dot_raw(a, b) == dot_raw(b, a)) by (nonlinear_arith);
}

/// The cross product is antisymmetric: `cross(a, b) == -cross(b, a)`.
pub proof fn lemma_cross_antisymmetric(a: Vec3, b: Vec3)
    requires
        a.wf(),
        b.wf(),
    ensures
        cross_spec(a, b) == vneg(cross_spec(b, a)),
{
    lemma_product3(a, b);
    lemma_neg_rounds(a.y * b.z - a.z * b.y);
    lemma_neg_rounds(a.z * b.x - a.x * b.z);
    lemma_neg_rounds(a.x * b.y - a.y * b.x);
    assert(b.y * a.z - b.z * a.y == -(a.y * b.z - a.z * b.y)) by (nonlinear_arith);
    assert(b.z * a.x - b.x * a.z == -(a.z * b.x - a.x * b.z)) by (nonlinear_arith);
    assert(b.x * a.y - b.y * a.x == -(a.x * b.y - a.y * b.x)) by (nonlinear_arith);
}

/// Division by `SCALE` rounding toward zero is off by less than one.
proof fn lemma_tdiv_close(n: int)
    ensures
        -SCALE < n - SCALE * tdiv(n, SCALE as int) < SCALE,
        n >= 0 ==> tdiv(n, SCALE as int) >= 0,
        n <= 0 ==> tdiv(n, SCALE as int) <= 0,
{
    let s = SCALE as int;
    if n >= 0 {
        lemma_fundamental_div_mod(n, s);
        assert(0 <= n % s < s);
        assert(n / s >= 0) by (nonlinear_arith)
            requires
                n >= 0,
                s > 0,
                n == s * (n / s) + (n % s),
                0 <= n % s < s,
        ;
    } else {
        lemma_fundamental_div_mod(-n, s);
        assert(0 <= (-n) % s < s);
        assert((-n) / s >= 0) by (nonlinear_arith)
            requires
                -n > 0,
                s > 0,
                -n == s * ((-n) / s) + ((-n) % s),
                0 <= (-n) % s < s,
        ;
    }
}

/// Reflection keeps the angle to the normal: for a direction `d` of
/// components in `[-1, 1]` (a unit direction, for one) and a unit normal
/// `n` (its squared length within fixed-point rounding of one), the
/// reflected vector `r` has `dot(r, n) == -dot(d, n)`, to within 64 raw
/// units (about 0.001) of rounding.
pub proof fn lemma_reflection_law(d: Vec3, n: Vec3)
    requires
        -SCALE <= d.x <= SCALE,
        -SCALE <= d.y <= SCALE,
        -SCALE <= d.z <= SCALE,
        -SCALE <= n.x <= SCALE,
        -SCALE <= n.y <= SCALE,
        -SCALE <= n.z <= SCALE,
        SCALE * SCALE - 8 * SCALE <= dot_raw(n, n) <= SCALE * SCALE + 8 * SCALE,
    ensures
        -64 <= dot_spec(reflect_spec(d, n), n) + dot_spec(d, n) <= 64,
{
    let s = SCALE as int;
    let p = dot_raw(d, n);
    assert(-3 * s * s <= p <= 3 * s * s) by (nonlinear_arith)
        requires
            p == d.x * n.x + d.y * n.y + d.z * n.z,
            -s <= d.x <= s, -s <= d.y <= s, -s <= d.z <= s,
            -s <= n.x <= s, -s <= n.y <= s, -s <= n.z <= s,
    ;
    lemma_tdiv_close(p);
    let dd = tdiv(p, s);
    assert(-3 * s <= dd <= 3 * s) by (nonlinear_arith)
        requires
            -s < p - s * dd < s,
            -3 * s * s <= p <= 3 * s * s,
            s == 65536,
    ;
    assert(dot_spec(d, n) == dd);
    let k = add_spec(dd, dd);
    assert(k == 2 * dd);
    let (px, py, pz) = (n.x * k, n.y * k, n.z * k);
    assert(-6 * s * s <= px <= 6 * s * s && -6 * s * s <= py <= 6 * s * s && -6 * s * s <= pz <= 6 * s * s)
        by (nonlinear_arith)
        requires
            px == n.x * k, py == n.y * k, pz == n.z * k,
            -6 * s <= k <= 6 * s,
            -s <= n.x <= s, -s <= n.y <= s, -s <= n.z <= s,
    ;
    lemma_tdiv_close(px);
    lemma_tdiv_close(py);
    lemma_tdiv_close(pz);
    let (sx, sy, sz) = (tdiv(px, s), tdiv(py, s), tdiv(pz, s));
    assert(-7 * s <= sx <= 7 * s && -7 * s <= sy <= 7 * s && -7 * s <= sz <= 7 * s) by (nonlinear_arith)
        requires
            -s < px - s * sx < s, -s < py - s * sy < s, -s < pz - s * sz < s,
            -6 * s * s <= px <= 6 * s * s, -6 * s * s <= py <= 6 * s * s, -6 * s * s <= pz <= 6 * s * s,
            s == 65536,
    ;
    let r = reflect_spec(d, n);
    assert(r.x == d.x - sx && r.y == d.y - sy && r.z == d.z - sz);
    let q = dot_raw(r, n);
    let nn = dot_raw(n, n);
    let (ex, ey, ez) = (px - s * sx, py - s * sy, pz - s * sz);
    let big_e = ex * n.x + ey * n.y + ez * n.z;
    let sn = sx * n.x + sy * n.y + sz * n.z;
    assert(q == p - sn) by (nonlinear_arith)
        requires
            q == (d.x - sx) * n.x + (d.y - sy) * n.y + (d.z - sz) * n.z,
            p == d.x * n.x + d.y * n.y + d.z * n.z,
            sn == sx * n.x + sy * n.y + sz * n.z,
    ;
    lemma_scaled_term(s, sx, n.x as int, k, ex);
    lemma_scaled_term(s, sy, n.y as int, k, ey);
    lemma_scaled_term(s, sz, n.z as int, k, ez);
    let (nx, ny, nz) = (n.x as int, n.y as int, n.z as int);
    lemma_sum3_scaled(s, sx * nx, sy * ny, sz * nz);
    lemma_mul_is_associative(s, sx, nx);
    lemma_mul_is_associative(s, sy, ny);
    lemma_mul_is_associative(s, sz, nz);
    lemma_sum3_scaled(k, nx * nx, ny * ny, nz * nz);
    assert(s * sn == k * nn - big_e);
    assert(k * nn == 2 * dd * (s * s) + 2 * dd * (nn - s * s)) by (nonlinear_arith)
        requires
            k == 2 * dd,
    ;
    assert(2 * dd * (s * s) == 2 * s * (s * dd)) by (nonlinear_arith);
    assert(s * q == s * p - s * sn) by (nonlinear_arith)
        requires
            q == p - sn,
    ;
    assert(s * q == -s * p + 2 * s * (p - s * dd) - 2 * dd * (nn - s * s) + big_e) by (nonlinear_arith)
        requires
            s * q == s * p - s * sn,
            s * sn == k * nn - big_e,
            k * nn == 2 * dd * (s * s) + 2 * dd * (nn - s * s),
            2 * dd * (s * s) == 2 * s * (s * dd),
    ;
    assert(-3 * s * s < big_e < 3 * s * s) by (nonlinear_arith)
        requires
            big_e == ex * n.x + ey * n.y + ez * n.z,
            -s < ex < s, -s < ey < s, -s < ez < s,
            -s <= n.x <= s, -s <= n.y <= s, -s <= n.z <= s,
            s > 0,
    ;
    assert(-48 * s * s <= 2 * dd * (nn - s * s) <= 48 * s * s) by (nonlinear_arith)
        requires
            -3 * s <= dd <= 3 * s,
            -8 * s <= nn - s * s <= 8 * s,
            s > 0,
    ;
    assert(-53 * s < q + p < 53 * s) by (nonlinear_arith)
        requires
            s * q == -s * p + 2 * s * (p - s * dd) - 2 * dd * (nn - s * s) + big_e,
            -3 * s * s < big_e < 3 * s * s,
            -48 * s * s <= 2 * dd * (nn - s * s) <= 48 * s * s,
            -s < p - s * dd < s,
            s > 0,
    ;
    lemma_tdiv_close(q);
    let tt = tdiv(q, s);
    assert(-4 * s * s <= q <= 4 * s * s);
    assert(-5 * s <= tt <= 5 * s) by (nonlinear_arith)
        requires
            -s < q - s * tt < s,
            -4 * s * s <= q <= 4 * s * s,
            s == 65536,
    ;
    assert(dot_spec(r, n) == tt);
    assert(-64 <= tt + dd <= 64) by (nonlinear_arith)
        requires
            -s < q - s * tt < s,
            -s < p - s * dd < s,
            -53 * s < q + p < 53 * s,
            s == 65536,
    ;
}

pub(crate) proof fn lemma_sum3_scaled(s: int, a: int, b: int, c: int)
    ensures
        s * (a + b + c) == s * a + s * b + s * c,
{
    lemma_mul_is_distributive_add(s, a + b, c);
    lemma_mul_is_distributive_add(s, a, b);
}

proof fn lemma_scaled_term(s: int, sx: int, nx: int, k: int, ex: int)
    requires
        ex == nx * k - s * sx,
    ensures
        s * sx * nx == k * (nx * nx) - ex * nx,
{
    assert(s * sx * nx == (nx * k - ex) * nx) by (nonlinear_arith)
        requires
            s * sx == nx * k - ex,
    ;
    assert((nx * k - ex) * nx == k * (nx * nx) - ex * nx) by (nonlinear_arith);
}

/// Division by a positive `d` rounding toward zero is off by less than `d`
/// and never grows the magnitude.
pub(crate) proof fn lemma_tdiv_pos_close(n: int, d: int)
    requires
        d > 0,
    ensures
        n >= 0 ==> 0 <= n - d * tdiv(n, d) < d,
        n < 0 ==> -d < n - d * tdiv(n, d) <= 0,
        n >= 0 ==> 0 <= d * tdiv(n, d) <= n,
        n < 0 ==> n <= d * tdiv(n, d) <= 0,
{
    let m = if n >= 0 { n } else { -n };
    lemma_fundamental_div_mod(m, d);
    lemma_mod_pos_bound(m, d);
    let q = m / d;
    assert(q >= 0) by (nonlinear_arith)
        requires
            d * q + (m % d) == m,
            0 <= m % d < d,
            d > 0,
            m >= 0,
    ;
    if n < 0 {
        assert(d * tdiv(n, d) == -(d * q)) by (nonlinear_arith)
            requires
                tdiv(n, d) == -q,
        ;
    }
}

/// For `x - l <= y <= x` with `y >= 0`: `y^2 >= x^2 - 2 x l`.
proof fn lemma_square_shortfall(x: int, y: int, l: int)
    requires
        0 <= y <= x,
        x - l <= y,
        l >= 0,
    ensures
        x * x - 2 * x * l <= y * y <= x * x,
{
    if x >= l {
        assert(x * x - 2 * x * l <= y * y <= x * x) by (nonlinear_arith)
            requires
                0 <= x - l <= y <= x,
                l >= 0,
        ;
    } else {
        assert(x * x - 2 * x * l <= y * y <= x * x) by (nonlinear_arith)
            requires
                0 <= y <= x < l,
        ;
    }
}

/// One component of normalization: `u = a / l` rounded toward zero, so
/// `|u l|` falls short of `|a s|` by less than `l`.
proof fn lemma_unit_component(a: int, s: int, l: int)
    requires
        l > 0,
        s > 0,
    ensures
        (a * s) * (a * s) - 2 * ((abs(a) * s) * l) <= (l * tdiv(a * s, l)) * (l * tdiv(a * s, l)) <= (a * s) * (a * s),
        abs(l * tdiv(a * s, l)) <= abs(a * s),
{
    let m = a * s;
    lemma_tdiv_pos_close(m, l);
    let y = l * tdiv(m, l);
    lemma_abs_square(m);
    lemma_abs_square(y);
    lemma_square_shortfall(abs(m), abs(y), l);
    assert(abs(m) == abs(a) * s) by (nonlinear_arith)
        requires
            m == a * s,
            s > 0,
    ;
    assert(2 * abs(m) * l == 2 * ((abs(a) * s) * l)) by (nonlinear_arith)
        requires
            abs(m) == abs(a) * s,
    ;
}

pub(crate) proof fn lemma_abs_square(x: int)
    ensures
        abs(x) >= 0,
        abs(x) * abs(x) == x * x,
{
    if x < 0 {
        assert((-x) * (-x) == x * x) by (nonlinear_arith);
    }
}

pub(crate) proof fn lemma_square_scaled(l: int, u: int)
    ensures
        (l * u) * (l * u) == (l * l) * (u * u),
{
    assert((l * u) * (l * u) == (l * l) * (u * u)) by (nonlinear_arith);
}

pub open spec fn abs(v: int) -> int {
    if v < 0 { -v } else { v }
}

/// Normalization gives unit length: a vector of length at least one (with
/// components below 1024, so that nothing saturates) has a unit vector
/// whose length is one to within 8 raw units (about 0.0001).
pub proof fn lemma_unit_length(a: Vec3)
    requires
        -0x400_0000 <= a.x <= 0x400_0000,
        -0x400_0000 <= a.y <= 0x400_0000,
        -0x400_0000 <= a.z <= 0x400_0000,
        dot_raw(a, a) >= SCALE * SCALE,
    ensures
        length_spec(a) > 0,
        SCALE - 8 <= length_spec(unit_spec(a)) <= SCALE + 8,
{
    let s = SCALE as int;
    let (ax, ay, az) = (a.x as int, a.y as int, a.z as int);
    let big_a = dot_raw(a, a);
    assert(big_a <= 3 * 0x10_0000_0000_0000) by (nonlinear_arith)
        requires
            big_a == ax * ax + ay * ay + az * az,
            -0x400_0000 <= ax <= 0x400_0000,
            -0x400_0000 <= ay <= 0x400_0000,
            -0x400_0000 <= az <= 0x400_0000,
    ;
    lemma_tdiv_pos_close(big_a, s);
    let ls = tdiv(big_a, s);
    assert(length_squared_spec(a) == ls);
    fixed::lemma_isqrt_exists(ls * s);
    let l = length_spec(a);
    assert(is_isqrt(ls * s, l));
    // l^2 <= ls s <= A < ls s + s < (l + 1)^2 + s, and l >= s
    assert(l >= s) by (nonlinear_arith)
        requires
            ls * s < (l + 1) * (l + 1),
            s * s <= big_a,
            big_a - s < s * ls,
            l >= 0,
            s == 65536,
    ;
    lemma_unit_component(ax, s, l);
    lemma_unit_component(ay, s, l);
    lemma_unit_component(az, s, l);
    let (ux, uy, uz) = (tdiv(ax * s, l), tdiv(ay * s, l), tdiv(az * s, l));
    assert(-0x400_0000 <= ux <= 0x400_0000 && -0x400_0000 <= uy <= 0x400_0000 && -0x400_0000 <= uz <= 0x400_0000)
        by (nonlinear_arith)
        requires
            abs(l * ux) <= abs(ax * s), abs(l * uy) <= abs(ay * s), abs(l * uz) <= abs(az * s),
            l >= s, s > 0,
            -0x400_0000 <= ax <= 0x400_0000,
            -0x400_0000 <= ay <= 0x400_0000,
            -0x400_0000 <= az <= 0x400_0000,
    ;
    let u = unit_spec(a);
    assert(u.x == ux && u.y == uy && u.z == uz);
    let big_u = dot_raw(u, u);
    let sum_abs = abs(ax) + abs(ay) + abs(az);
    lemma_abs_square(ax);
    lemma_abs_square(ay);
    lemma_abs_square(az);
    let (px, py, pz) = (abs(ax), abs(ay), abs(az));
    assert(sum_abs * sum_abs <= 3 * (px * px + py * py + pz * pz)) by (nonlinear_arith)
        requires
            sum_abs == px + py + pz,
    {
        assert((px - py) * (px - py) >= 0) by (nonlinear_arith);
        assert((py - pz) * (py - pz) >= 0) by (nonlinear_arith);
        assert((px - pz) * (px - pz) >= 0) by (nonlinear_arith);
    }
    assert(sum_abs * sum_abs <= 3 * big_a) by (nonlinear_arith)
        requires
            sum_abs * sum_abs <= 3 * (px * px + py * py + pz * pz),
            px == abs(ax), py == abs(ay), pz == abs(az),
            big_a == ax * ax + ay * ay + az * az,
            sum_abs == abs(ax) + abs(ay) + abs(az),
            abs(ax) * abs(ax) == ax * ax,
            abs(ay) * abs(ay) == ay * ay,
            abs(az) * abs(az) == az * az,
            abs(ax) >= 0, abs(ay) >= 0, abs(az) >= 0,
    ;
    assert(sum_abs < 4 * l) by (nonlinear_arith)
        requires
            sum_abs * sum_abs <= 3 * big_a,
            big_a < (l + 1) * (l + 1) + s,
            l >= s,
            s == 65536,
            sum_abs >= 0,
    ;
    lemma_square_scaled(l, ux);
    lemma_square_scaled(l, uy);
    lemma_square_scaled(l, uz);
    lemma_sum3_scaled(l * l, ux * ux, uy * uy, uz * uz);
    assert(l * l * big_u == (l * ux) * (l * ux) + (l * uy) * (l * uy) + (l * uz) * (l * uz));
    lemma_square_scaled(s, ax);
    lemma_square_scaled(s, ay);
    lemma_square_scaled(s, az);
    lemma_mul_is_commutative(ax, s);
    lemma_mul_is_commutative(ay, s);
    lemma_mul_is_commutative(az, s);
    lemma_sum3_scaled(s * s, ax * ax, ay * ay, az * az);
    lemma_mul_is_commutative(big_a, s * s);
    assert(big_a * (s * s) == (ax * s) * (ax * s) + (ay * s) * (ay * s) + (az * s) * (az * s));
    assert(abs(ax * s) == abs(ax) * s && abs(ay * s) == abs(ay) * s && abs(az * s) == abs(az) * s) by (nonlinear_arith)
        requires
            s > 0,
    ;
    assert(2 * s * sum_abs * l == 2 * ((abs(ax) * s) * l) + 2 * ((abs(ay) * s) * l) + 2 * ((abs(az) * s) * l))
        by (nonlinear_arith)
        requires
            sum_abs == abs(ax) + abs(ay) + abs(az),
    ;
    assert((ax * s) * (ax * s) - 2 * ((abs(ax) * s) * l) <= (l * ux) * (l * ux) <= (ax * s) * (ax * s));
    assert((ay * s) * (ay * s) - 2 * ((abs(ay) * s) * l) <= (l * uy) * (l * uy) <= (ay * s) * (ay * s));
    assert((az * s) * (az * s) - 2 * ((abs(az) * s) * l) <= (l * uz) * (l * uz) <= (az * s) * (az * s));
    assert(big_a * (s * s) - 2 * s * sum_abs * l <= l * l * big_u <= big_a * (s * s));
    assert(s * s - 8 * s <= big_u) by (nonlinear_arith)
        requires
            big_a * (s * s) - 2 * s * sum_abs * l <= l * l * big_u,
            l * l <= big_a,
            sum_abs < 4 * l,
            l >= s,
            s > 0,
    ;
    assert(big_u < s * s + 4 * s) by (nonlinear_arith)
        requires
            l * l * big_u <= big_a * (s * s),
            big_a < (l + 1) * (l + 1) + s,
            l >= s,
            s == 65536,
    ;
    lemma_tdiv_pos_close(big_u, s);
    let ls_u = tdiv(big_u, s);
    assert(s - 8 <= ls_u <= s + 4) by (nonlinear_arith)
        requires
            0 <= big_u - s * ls_u < s,
            s * s - 8 * s <= big_u < s * s + 4 * s,
            s == 65536,
    ;
    assert(length_squared_spec(u) == ls_u);
    fixed::lemma_isqrt_exists(ls_u * s);
    let lu = length_spec(u);
    assert(is_isqrt(ls_u * s, lu));
    assert(s - 8 <= lu <= s + 8) by (nonlinear_arith)
        requires
            lu * lu <= ls_u * s < (lu + 1) * (lu + 1),
            s - 8 <= ls_u <= s + 4,
            lu >= 0,
            s == 65536,
    ;
}

/// Rounding `m / l` toward zero: `(l * q)^2` lies within `2 |m| l` below `m^2`.
proof fn lemma_round_square(m: int, l: int)
    requires
        l > 0,
    ensures
        m * m - 2 * abs(m) * l <= (l * tdiv(m, l)) * (l * tdiv(m, l)) <= m * m,
{
    lemma_tdiv_pos_close(m, l);
    let y = l * tdiv(m, l);
    lemma_abs_square(m);
    lemma_abs_square(y);
    lemma_square_shortfall(abs(m), abs(y), l);
}

/// Scaling scales the length: for a vector `a` of length at least one and
/// a scalar `k` with `|k| <= 16` and `|k a| >= 2` (components below 16, so
/// that nothing saturates), `length(k a)` equals `|k| length(a)` to within
/// 64 raw units (about 0.001).
pub proof fn lemma_length_scales(a: Vec3, k: int)
    requires
        -0x10_0000 <= a.x <= 0x10_0000,
        -0x10_0000 <= a.y <= 0x10_0000,
        -0x10_0000 <= a.z <= 0x10_0000,
        -16 * SCALE <= k <= 16 * SCALE,
        dot_raw(a, a) >= SCALE * SCALE,
        k * k * dot_raw(a, a) >= 4 * (SCALE * SCALE) * (SCALE * SCALE),
    ensures
        -64 <= length_spec(vscale(a, k)) - mul_spec(abs(k), length_spec(a)) <= 64,
{
    let s = SCALE as int;
    let (ax, ay, az) = (a.x as int, a.y as int, a.z as int);
    let kk = abs(k);
    lemma_abs_square(k);
    // the length of `a`
    let big_a = dot_raw(a, a);
    assert(big_a <= 3 * 0x100_0000_0000) by (nonlinear_arith)
        requires
            big_a == ax * ax + ay * ay + az * az,
            -0x10_0000 <= ax <= 0x10_0000,
            -0x10_0000 <= ay <= 0x10_0000,
            -0x10_0000 <= az <= 0x10_0000,
    ;
    lemma_tdiv_pos_close(big_a, s);
    let ls = tdiv(big_a, s);
    assert(length_squared_spec(a) == ls);
    fixed::lemma_isqrt_exists(ls * s);
    let l = length_spec(a);
    assert(is_isqrt(ls * s, l));
    assert(l >= s) by (nonlinear_arith)
        requires
            ls * s < (l + 1) * (l + 1),
            s * s <= big_a,
            big_a - s < s * ls,
            l >= 0,
            s == 65536,
    ;
    assert(l * l <= big_a < l * l + 4 * l) by (nonlinear_arith)
        requires
            l * l <= ls * s,
            s * ls <= big_a,
            big_a - s < s * ls,
            ls * s < (l + 1) * (l + 1),
            l >= s,
            s == 65536,
    ;
    assert(l <= 0x200_0000) by (nonlinear_arith)
        requires
            l * l <= big_a,
            big_a <= 3 * 0x100_0000_0000,
            l >= 0,
    ;
    // the scaled vector
    let (mx, my, mz) = (ax * k, ay * k, az * k);
    assert(-0x100_0000_0000 <= mx <= 0x100_0000_0000 && -0x100_0000_0000 <= my <= 0x100_0000_0000
        && -0x100_0000_0000 <= mz <= 0x100_0000_0000) by (nonlinear_arith)
        requires
            mx == ax * k, my == ay * k, mz == az * k,
            -0x10_0000 <= ax <= 0x10_0000,
            -0x10_0000 <= ay <= 0x10_0000,
            -0x10_0000 <= az <= 0x10_0000,
            -0x10_0000 <= k <= 0x10_0000,
    ;
    lemma_tdiv_pos_close(mx, s);
    lemma_tdiv_pos_close(my, s);
    lemma_tdiv_pos_close(mz, s);
    let (bx, by, bz) = (tdiv(mx, s), tdiv(my, s), tdiv(mz, s));
    assert(-0x100_0000 <= bx <= 0x100_0000 && -0x100_0000 <= by <= 0x100_0000 && -0x100_0000 <= bz <= 0x100_0000)
        by (nonlinear_arith)
        requires
            -0x100_0000_0000 <= mx <= 0x100_0000_0000,
            -0x100_0000_0000 <= my <= 0x100_0000_0000,
            -0x100_0000_0000 <= mz <= 0x100_0000_0000,
            -s < mx - s * bx < s, -s < my - s * by < s, -s < mz - s * bz < s,
            s == 65536,
    ;
    let b = vscale(a, k);
    assert(b.x == bx && b.y == by && b.z == bz);
    lemma_round_square(mx, s);
    lemma_round_square(my, s);
    lemma_round_square(mz, s);
    let big_b = dot_raw(b, b);
    lemma_square_scaled(s, bx);
    lemma_square_scaled(s, by);
    lemma_square_scaled(s, bz);
    lemma_sum3_scaled(s * s, bx * bx, by * by, bz * bz);
    assert(s * s * big_b == (s * bx) * (s * bx) + (s * by) * (s * by) + (s * bz) * (s * bz));
    lemma_square_scaled(ax, k);
    lemma_square_scaled(ay, k);
    lemma_square_scaled(az, k);
    lemma_sum3_scaled(k * k, ax * ax, ay * ay, az * az);
    lemma_mul_is_commutative(ax * ax, k * k);
    lemma_mul_is_commutative(ay * ay, k * k);
    lemma_mul_is_commutative(az * az, k * k);
    assert(mx * mx + my * my + mz * mz == k * k * big_a);
    let sum_abs = abs(ax) + abs(ay) + abs(az);
    assert(abs(mx) + abs(my) + abs(mz) == kk * sum_abs) by (nonlinear_arith)
        requires
            mx == ax * k, my == ay * k, mz == az * k,
            kk == abs(k),
            sum_abs == abs(ax) + abs(ay) + abs(az),
    {
        lemma_abs_product(ax, k);
        lemma_abs_product(ay, k);
        lemma_abs_product(az, k);
    }
    assert(2 * abs(mx) * s + 2 * abs(my) * s + 2 * abs(mz) * s == 2 * s * (kk * sum_abs)) by (nonlinear_arith)
        requires
            abs(mx) + abs(my) + abs(mz) == kk * sum_abs,
    ;
    assert(k * k * big_a - 2 * s * (kk * sum_abs) <= s * s * big_b <= k * k * big_a);
    // Cauchy-Schwarz bound on the sum of magnitudes
    lemma_abs_square(ax);
    lemma_abs_square(ay);
    lemma_abs_square(az);
    let (px, py, pz) = (abs(ax), abs(ay), abs(az));
    assert(sum_abs * sum_abs <= 3 * (px * px + py * py + pz * pz)) by (nonlinear_arith)
        requires
            sum_abs == px + py + pz,
    {
        assert((px - py) * (px - py) >= 0) by (nonlinear_arith);
        assert((py - pz) * (py - pz) >= 0) by (nonlinear_arith);
        assert((px - pz) * (px - pz) >= 0) by (nonlinear_arith);
    }
    assert(sum_abs < 4 * l) by (nonlinear_arith)
        requires
            sum_abs * sum_abs <= 3 * big_a,
            big_a < l * l + 4 * l,
            l >= s,
            s == 65536,
            sum_abs >= 0,
    ;
    // the length of the scaled vector
    assert(0 <= big_b <= 3 * 0x1_0000_0000_0000) by (nonlinear_arith)
        requires
            big_b == bx * bx + by * by + bz * bz,
            -0x100_0000 <= bx <= 0x100_0000,
            -0x100_0000 <= by <= 0x100_0000,
            -0x100_0000 <= bz <= 0x100_0000,
    ;
    lemma_tdiv_pos_close(big_b, s);
    let lsb = tdiv(big_b, s);
    assert(0 <= lsb <= 3 * 0x1_0000_0000) by (nonlinear_arith)
        requires
            0 <= s * lsb <= big_b,
            big_b <= 3 * 0x1_0000_0000_0000,
            s == 65536,
    ;
    assert(length_squared_spec(b) == lsb);
    fixed::lemma_isqrt_exists(lsb * s);
    let lb = length_spec(b);
    assert(is_isqrt(lsb * s, lb));
    // |k| times the length of `a`
    let x = kk * l;
    assert(0 <= x <= 0x10_0000 * 0x200_0000) by (nonlinear_arith)
        requires
            x == kk * l,
            0 <= kk <= 0x10_0000,
            0 <= l <= 0x200_0000,
    ;
    lemma_tdiv_pos_close(x, s);
    let t = tdiv(x, s);
    assert(mul_spec(kk, l) == t);
    assert(s * t <= x < s * t + s);
    assert(x * x + 64 * s * x >= k * k * big_a) by (nonlinear_arith)
        requires
            x == kk * l,
            kk * kk == k * k,
            big_a < l * l + 4 * l,
            0 <= kk <= 16 * s,
            l >= 0,
    ;
    assert(x >= s * s) by (nonlinear_arith)
        requires
            x * x + 64 * s * x >= k * k * big_a,
            k * k * big_a >= 4 * (s * s) * (s * s),
            x >= 0,
            s == 65536,
    ;
    assert(t >= s) by (nonlinear_arith)
        requires
            x < s * t + s,
            x >= s * s,
            s > 0,
    ;
    // from above: lb^2 <= B <= k^2 A / s^2 < (t + 33)^2
    assert(s * s * (lb * lb) <= k * k * big_a) by (nonlinear_arith)
        requires
            lb * lb <= lsb * s,
            s * lsb <= big_b,
            s * s * big_b <= k * k * big_a,
            s > 0,
    ;
    assert(k * k * (l * l) == x * x) by (nonlinear_arith)
        requires
            x == kk * l,
            kk * kk == k * k,
    ;
    assert(k * k * l == kk * x) by (nonlinear_arith)
        requires
            x == kk * l,
            kk * kk == k * k,
    ;
    assert(k * k * big_a <= k * k * (l * l) + 4 * (k * k * l)) by (nonlinear_arith)
        requires
            big_a < l * l + 4 * l,
    ;
    assert(x * x < s * s * ((t + 1) * (t + 1))) by (nonlinear_arith)
        requires
            0 <= x < s * t + s,
            t >= 0,
            s > 0,
    ;
    assert(kk * x <= 16 * s * (s * (t + 1))) by (nonlinear_arith)
        requires
            0 <= kk <= 16 * s,
            0 <= x < s * t + s,
            s > 0,
    ;
    assert(s * s * ((t + 1) * (t + 1)) + 64 * (s * (s * (t + 1))) <= s * s * ((t + 33) * (t + 33))) by (nonlinear_arith)
        requires
            t >= 0,
            s > 0,
    ;
    assert(k * k * big_a < s * s * ((t + 33) * (t + 33)));
    assert(lb < t + 33) by (nonlinear_arith)
        requires
            s * s * (lb * lb) < s * s * ((t + 33) * (t + 33)),
            lb >= 0,
            t >= 0,
            s > 0,
    ;
    // from below: (lb + 1)^2 > B - s >= (k^2 A - 2 s |k| sum) / s^2 - s > (t - 5)^2
    assert(s * s * ((lb + 1) * (lb + 1)) > k * k * big_a - 8 * s * x - s * s * s) by (nonlinear_arith)
        requires
            lsb * s < (lb + 1) * (lb + 1),
            big_b - s < s * lsb,
            k * k * big_a - 2 * s * (kk * sum_abs) <= s * s * big_b,
            sum_abs < 4 * l,
            x == kk * l,
            kk >= 0,
            s > 0,
    ;
    assert(k * k * big_a >= x * x) by (nonlinear_arith)
        requires
            l * l <= big_a,
            x == kk * l,
            kk * kk == k * k,
    ;
    assert(lb >= t - 5) by (nonlinear_arith)
        requires
            s * s * ((lb + 1) * (lb + 1)) > k * k * big_a - 8 * s * x - s * s * s,
            k * k * big_a >= x * x,
            s * t <= x < s * t + s,
            t >= s,
            lb >= 0,
            s == 65536,
    ;
}

proof fn lemma_abs_product(a: int, b: int)
    ensures
        abs(a * b) == abs(a) * abs(b),
{
    if a < 0 && b < 0 {
        assert(a * b == (-a) * (-b)) by (nonlinear_arith);
        assert((-a) * (-b) >= 0) by (nonlinear_arith)
            requires
                a < 0,
                b < 0,
        ;
    } else if a < 0 {
        assert(a * b == -((-a) * b)) by (nonlinear_arith);
        assert((-a) * b >= 0) by (nonlinear_arith)
            requires
                a < 0,
                b >= 0,
        ;
    } else if b < 0 {
        assert(a * b == -(a * (-b))) by (nonlinear_arith);
        assert(a * (-b) >= 0) by (nonlinear_arith)
            requires
                a >= 0,
                b < 0,
        ;
    } else {
        assert(a * b >= 0) by (nonlinear_arith)
            requires
                a >= 0,
                b >= 0,
        ;
    }
}

/// Rounding toward zero and saturation both commute with negation.
proof fn lemma_neg_rounds(n: int)
    ensures
        clamp(tdiv(-n, SCALE as int)) == -clamp(tdiv(n, SCALE as int)),
{
}

proof fn lemma_product3(a: Vec3, b: Vec3)
    requires
        a.wf(),
        b.wf(),
    ensures
        -LIMIT * LIMIT <= a.x * b.x <= LIMIT * LIMIT,
        -LIMIT * LIMIT <= a.y * b.y <= LIMIT * LIMIT,
        -LIMIT * LIMIT <= a.z * b.z <= LIMIT * LIMIT,
        -LIMIT * LIMIT <= a.x * b.y <= LIMIT * LIMIT,
        -LIMIT * LIMIT <= a.y * b.x <= LIMIT * LIMIT,
        -LIMIT * LIMIT <= a.x * b.z <= LIMIT * LIMIT,
        -LIMIT * LIMIT <= a.z * b.x <= LIMIT * LIMIT,
        -LIMIT * LIMIT <= a.y * b.z <= LIMIT * LIMIT,
        -LIMIT * LIMIT <= a.z * b.y <= LIMIT * LIMIT,
{
    fixed::lemma_product_bound(a.x as int, b.x as int);
    fixed::lemma_product_bound(a.y as int, b.y as int);
    fixed::lemma_product_bound(a.z as int, b.z as int);
    fixed::lemma_product_bound(a.x as int, b.y as int);
    fixed::lemma_product_bound(a.y as int, b.x as int);
    fixed::lemma_product_bound(a.x as int, b.z as int);
    fixed::lemma_product_bound(a.z as int, b.x as int);
    fixed::lemma_product_bound(a.y as int, b.z as int);
    fixed::lemma_product_bound(a.z as int, b.y as int);
}

proof fn lemma_length_squared_nonneg(a: Vec3)
    ensures
        dot_spec(a, a) >= 0,
{
    assert(dot_raw(a, a) >= 0) by (nonlinear_arith);
}

} // verus!
