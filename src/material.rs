//! Surface materials and how they scatter light.
use vstd::prelude::*;
use rand::rngs::StdRng;
use crate::fixed::{self, SCALE, in_range, add_spec, sub_spec, mul_spec, div_spec, sqrt_spec};
use crate::vec3::{Vec3, length_squared_spec, vadd, vneg, vscale, dot_spec, length_spec, unit_spec, reflect_spec, refract_spec, near_zero_spec};
use crate::ray::Ray;
use crate::hittable::HitRecord;
use crate::random::{rand_double, rand_in_unit_sphere, rand_unit_vector};

verus! {

/// The largest refractive index a glass may have (64).
pub const MAX_INDEX: i64 = 4194304;

#[derive(Clone, Copy, Debug, PartialEq, Eq, Structural)]
pub enum Material {
    /// Diffuse: scatters about the normal and keeps `albedo` of the light.
    Lambertian { albedo: Vec3 },
    /// Reflective, roughened by `fuzz` in `[0, 1]`.
    Metal { albedo: Vec3, fuzz: i64 },
    /// Clear glass with refractive index `ir`.
    Dielectric { ir: i64 },
}

/// Schlick's approximation of the reflectance at an interface.
pub open spec fn reflectance_spec(cosine: int, ref_idx: int) -> int {
    let q = div_spec(sub_spec(SCALE as int, ref_idx), add_spec(SCALE as int, ref_idx));
    let r0 = mul_spec(q, q);
    let m = sub_spec(SCALE as int, cosine);
    let m5 = mul_spec(mul_spec(mul_spec(mul_spec(m, m), m), m), m);
    add_spec(r0, mul_spec(sub_spec(SCALE as int, r0), m5))
}

/// `sqrt(1 - cos^2)`, taking a negative difference as zero.
pub open spec fn sin_spec(cos_theta: int) -> int {
    let d = sub_spec(SCALE as int, mul_spec(cos_theta, cos_theta));
    sqrt_spec(if d < 0 { 0 } else { d })
}

/// Glass reflects under total internal reflection, or when the reflectance
/// exceeds the uniform draw.
pub open spec fn must_reflect_spec(ratio: int, cos_theta: int, draw: int) -> bool {
    mul_spec(ratio, sin_spec(cos_theta)) > SCALE || reflectance_spec(cos_theta, ratio) > draw
}

/// The two branches at a glass interface exclude each other: past the
/// critical angle (`ratio * sin > 1`) glass reflects whatever the draw;
/// short of it, a draw at or above the reflectance refracts.
pub proof fn lemma_critical_angle(ratio: int, cos_theta: int, draw: int)
    ensures
        mul_spec(ratio, sin_spec(cos_theta)) > SCALE ==> must_reflect_spec(ratio, cos_theta, draw),
        mul_spec(ratio, sin_spec(cos_theta)) <= SCALE && draw >= reflectance_spec(cos_theta, ratio)
            ==> !must_reflect_spec(ratio, cos_theta, draw),
{
}

/// The random inputs a material's scattering draws: for diffuse a direction
/// of length close to one, for metal a point of the unit ball, and for glass
/// a uniform value in `[0, 1)`.
pub open spec fn sample_ok(m: Material, sample: Vec3, draw: int) -> bool {
    &&& sample.wf()
    &&& 0 <= draw < SCALE
    &&& match m {
        Material::Lambertian { .. } => SCALE / 2 <= length_squared_spec(sample) <= 2 * SCALE
            && -2 * SCALE <= sample.x <= 2 * SCALE && -2 * SCALE <= sample.y <= 2 * SCALE
            && -2 * SCALE <= sample.z <= 2 * SCALE,
        Material::Metal { .. } => length_squared_spec(sample) < SCALE
            && -SCALE <= sample.x <= SCALE && -SCALE <= sample.y <= SCALE && -SCALE <= sample.z <= SCALE,
        Material::Dielectric { .. } => true,
    }
}

pub open spec fn white() -> Vec3 {
    Vec3 { x: SCALE, y: SCALE, z: SCALE }
}

/// What a material does with an incoming ray at a hit, given the random
/// `sample` (a unit vector for diffuse, a point of the unit ball for metal)
/// and the uniform `draw` in `[0, 1)` that glass compares with its reflectance.
pub open spec fn scatter_spec(m: Material, r_in: Ray, rec: HitRecord, sample: Vec3, draw: int) -> Option<(Vec3, Ray)> {
    match m {
        Material::Lambertian { albedo } => {
            let d = vadd(rec.normal, sample);
            Some((albedo, Ray { orig: rec.p, dir: if near_zero_spec(d) { rec.normal } else { d } }))
        },
        Material::Metal { albedo, fuzz } => {
            if length_spec(r_in.dir) == 0 {
                None
            } else {
                let refl = reflect_spec(unit_spec(r_in.dir), rec.normal);
                let d = vadd(refl, vscale(sample, fuzz as int));
                if dot_spec(d, rec.normal) > 0 {
                    Some((albedo, Ray { orig: rec.p, dir: d }))
                } else {
                    None
                }
            }
        },
        Material::Dielectric { ir } => {
            if length_spec(r_in.dir) == 0 {
                None
            } else {
                let ratio = if rec.front_face { div_spec(SCALE as int, ir as int) } else { ir as int };
                let u = unit_spec(r_in.dir);
                let c = dot_spec(vneg(u), rec.normal);
                let cos_theta = if c > SCALE { SCALE as int } else { c };
                let d = if must_reflect_spec(ratio, cos_theta, draw) {
                    reflect_spec(u, rec.normal)
                } else {
                    match refract_spec(u, rec.normal, ratio) {
                        Some(v) => v,
                        None => reflect_spec(u, rec.normal),
                    }
                };
                Some((white(), Ray { orig: rec.p, dir: d }))
            }
        },
    }
}

/// Schlick's approximation for the cosine of the incidence angle and the
/// ratio of refractive indices.
pub fn reflectance(cosine: i64, ref_idx: i64) -> (r: i64)
    requires
        in_range(cosine as int),
        0 < ref_idx,
        in_range(ref_idx as int),
    ensures
        r == reflectance_spec(cosine as int, ref_idx as int),
{
    let q = fixed::fx_div(fixed::fx_sub(SCALE, ref_idx), fixed::fx_add(SCALE, ref_idx));
    let r0 = fixed::fx_mul(q, q);
    let m = fixed::fx_sub(SCALE, cosine);
    let m5 = fixed::fx_mul(fixed::fx_mul(fixed::fx_mul(fixed::fx_mul(m, m), m), m), m);
    fixed::fx_add(r0, fixed::fx_mul(fixed::fx_sub(SCALE, r0), m5))
}

/// Whether glass reflects rather than refracts, for the ratio of indices,
/// the cosine of the incidence angle and a uniform draw in `[0, 1)`.
pub fn must_reflect(ratio: i64, cos_theta: i64, draw: i64) -> (r: bool)
    requires
        0 < ratio,
        in_range(ratio as int),
        in_range(cos_theta as int),
    ensures
        r == must_reflect_spec(ratio as int, cos_theta as int, draw as int),
{
    let d = fixed::fx_sub(SCALE, fixed::fx_mul(cos_theta, cos_theta));
    let sin_theta = fixed::fx_sqrt(if d < 0 { 0 } else { d });
    fixed::fx_mul(ratio, sin_theta) > SCALE || reflectance(cos_theta, ratio) > draw
}

impl Material {
    pub open spec fn wf(&self) -> bool {
        match *self {
            Material::Lambertian { albedo } => albedo.wf(),
            Material::Metal { albedo, fuzz } => albedo.wf() && 0 <= fuzz <= SCALE,
            Material::Dielectric { ir } => 0 < ir <= MAX_INDEX,
        }
    }

    pub fn lambertian(albedo: Vec3) -> (r: Material)
        ensures
            r == (Material::Lambertian { albedo }),
    {
        Material::Lambertian { albedo }
    }

    /// A metal whose fuzz is clamped to `[0, 1]`.
    pub fn metal(albedo: Vec3, fuzz: i64) -> (r: Material)
        ensures
            r == (Material::Metal { albedo, fuzz: if fuzz < 0 { 0 } else if fuzz > SCALE { SCALE } else { fuzz } }),
    {
        let f = if fuzz < 0 {
            0
        } else if fuzz > SCALE {
            SCALE
        } else {
            fuzz
        };
        Material::Metal { albedo, fuzz: f }
    }

    /// Scatters `r_in` at `rec` using the given random `sample` and `draw`.
    pub fn scatter_with(&self, r_in: &Ray, rec: &HitRecord, sample: Vec3, draw: i64) -> (res: Option<(Vec3, Ray)>)
        requires
            self.wf(),
            r_in.wf(),
            rec.p.wf(),
            rec.normal.wf(),
            sample.wf(),
        ensures
            res == scatter_spec(*self, *r_in, *rec, sample, draw as int),
            res is Some ==> (res->0).0.wf() && (res->0).1.wf(),
    {
        match *self {
            Material::Lambertian { albedo } => {
                let d = rec.normal.add(sample);
                let dir = if d.near_zero() { rec.normal } else { d };
                Some((albedo, Ray::new(rec.p, dir)))
            },
            Material::Metal { albedo, fuzz } => {
                match r_in.dir.unit_vector() {
                    None => None,
                    Some(u) => {
                        let refl = u.reflect(rec.normal);
                        let d = refl.add(sample.scale(fuzz));
                        if d.dot(rec.normal) > 0 {
                            Some((albedo, Ray::new(rec.p, d)))
                        } else {
                            None
                        }
                    },
                }
            },
            Material::Dielectric { ir } => {
                match r_in.dir.unit_vector() {
                    None => None,
                    Some(u) => {
                        let ratio = if rec.front_face { fixed::fx_div(SCALE, ir) } else { ir };
                        let c = u.neg().dot(rec.normal);
                        let cos_theta = if c > SCALE { SCALE } else { c };
                        proof {
                            lemma_ratio_positive(ir as int);
                        }
                        let d = if must_reflect(ratio, cos_theta, draw) {
                            u.reflect(rec.normal)
                        } else {
                            match u.refract(rec.normal, ratio) {
                                Some(v) => v,
                                None => u.reflect(rec.normal),
                            }
                        };
                        Some((Vec3::new(SCALE, SCALE, SCALE), Ray::new(rec.p, d)))
                    },
                }
            },
        }
    }

    /// Scatters `r_in` at `rec`, drawing the randomness from `rng`.
    pub fn scatter(&self, r_in: &Ray, rec: &HitRecord, rng: &mut StdRng) -> (res: Option<(Vec3, Ray)>)
        requires
            self.wf(),
            r_in.wf(),
            rec.p.wf(),
            rec.normal.wf(),
        ensures
            exists|sample: Vec3, draw: int|
                sample_ok(*self, sample, draw) && #[trigger] scatter_spec(*self, *r_in, *rec, sample, draw) == res,
            res is Some ==> (res->0).0.wf() && (res->0).1.wf() && (res->0).1.orig == rec.p,
    {
        match *self {
            Material::Lambertian { .. } => {
                let s = rand_unit_vector(rng);
                let res = self.scatter_with(r_in, rec, s, 0);
                assert(sample_ok(*self, s, 0));
                res
            },
            Material::Metal { .. } => {
                let s = rand_in_unit_sphere(rng);
                let res = self.scatter_with(r_in, rec, s, 0);
                assert(sample_ok(*self, s, 0));
                res
            },
            Material::Dielectric { .. } => {
                let d = rand_double(rng, 0, SCALE);
                let z = Vec3::new(0, 0, 0);
                let res = self.scatter_with(r_in, rec, z, d);
                assert(sample_ok(*self, z, d as int));
                res
            },
        }
    }

    pub fn dielectric(ir: i64) -> (r: Material)
        ensures
            r == (Material::Dielectric { ir }),
    {
        Material::Dielectric { ir }
    }
}

proof fn lemma_ratio_positive(ir: int)
    requires
        0 < ir <= MAX_INDEX,
    ensures
        div_spec(SCALE as int, ir) > 0,
{
    assert(SCALE * SCALE / ir > 0) by (nonlinear_arith)
        requires
            0 < ir <= 4194304,
    ;
}

} // verus!
