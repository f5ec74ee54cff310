//! The thin-lens camera that turns viewport coordinates into rays.
use vstd::prelude::*;
use rand::rngs::StdRng;
use crate::fixed::{self, SCALE, in_range, add_spec, mul_spec, div_spec};
use crate::vec3::{Vec3, length_squared_spec, vadd, vsub, vscale, vdiv, cross_spec, length_spec, unit_spec};
use crate::ray::Ray;
use crate::random::rand_in_unit_disk;

verus! {

#[derive(Clone, Copy, Debug, PartialEq, Eq, Structural)]
pub struct Camera {
    pub origin: Vec3,
    pub lower_left_corner: Vec3,
    pub horizontal: Vec3,
    pub vertical: Vec3,
    pub u: Vec3,
    pub v: Vec3,
    pub w: Vec3,
    pub lens_radius: i64,
}

/// The camera looking from `look_from` at `look_at`, with `view_up` giving
/// the up direction, `half_height` the tangent of half the vertical field
/// of view, and the focus plane at `focus_dist`; `None` when the view
/// direction is zero or parallel to `view_up`.
pub open spec fn camera_spec(
    look_from: Vec3,
    look_at: Vec3,
    view_up: Vec3,
    half_height: int,
    aspect_ratio: int,
    aperture: int,
    focus_dist: int,
) -> Option<Camera> {
    let back = vsub(look_from, look_at);
    if length_spec(back) == 0 {
        None
    } else {
        let w = unit_spec(back);
        let side = cross_spec(view_up, w);
        if length_spec(side) == 0 {
            None
        } else {
            let u = unit_spec(side);
            let v = cross_spec(w, u);
            let vh = add_spec(half_height, half_height);
            let vw = mul_spec(aspect_ratio, vh);
            let horizontal = vscale(u, mul_spec(vw, focus_dist));
            let vertical = vscale(v, mul_spec(vh, focus_dist));
            let llc = vsub(vsub(vsub(look_from, vdiv(horizontal, 2 * SCALE)), vdiv(vertical, 2 * SCALE)), vscale(w, focus_dist));
            Some(Camera {
                origin: look_from,
                lower_left_corner: llc,
                horizontal,
                vertical,
                u,
                v,
                w,
                lens_radius: div_spec(aperture, 2 * SCALE) as i64,
            })
        }
    }
}

/// The ray through viewport point `(s, t)` from the lens point `disk`
/// (a point of the unit disk, scaled by the lens radius).
pub open spec fn ray_spec(c: Camera, s: int, t: int, disk: Vec3) -> Ray {
    let rd = vscale(disk, c.lens_radius as int);
    let offset = vadd(vscale(c.u, rd.x as int), vscale(c.v, rd.y as int));
    let target = vadd(vadd(c.lower_left_corner, vscale(c.horizontal, s)), vscale(c.vertical, t));
    Ray { orig: vadd(c.origin, offset), dir: vsub(vsub(target, c.origin), offset) }
}

impl Camera {
    pub open spec fn wf(&self) -> bool {
        self.origin.wf() && self.lower_left_corner.wf() && self.horizontal.wf() && self.vertical.wf()
            && self.u.wf() && self.v.wf() && self.w.wf() && in_range(self.lens_radius as int)
    }

    pub fn new(
        look_from: Vec3,
        look_at: Vec3,
        view_up: Vec3,
        half_height: i64,
        aspect_ratio: i64,
        aperture: i64,
        focus_dist: i64,
    ) -> (r: Option<Camera>)
        requires
            look_from.wf(),
            look_at.wf(),
            view_up.wf(),
            in_range(half_height as int),
            in_range(aspect_ratio as int),
            in_range(aperture as int),
            in_range(focus_dist as int),
        ensures
            r == camera_spec(look_from, look_at, view_up, half_height as int, aspect_ratio as int, aperture as int, focus_dist as int),
            r is Some ==> r->0.wf(),
    {
        let w = match look_from.sub(look_at).unit_vector() {
            Some(w) => w,
            None => return None,
        };
        let u = match view_up.cross(w).unit_vector() {
            Some(u) => u,
            None => return None,
        };
        let v = w.cross(u);
        let vh = fixed::fx_add(half_height, half_height);
        let vw = fixed::fx_mul(aspect_ratio, vh);
        let horizontal = u.scale(fixed::fx_mul(vw, focus_dist));
        let vertical = v.scale(fixed::fx_mul(vh, focus_dist));
        let lower_left_corner = look_from.sub(horizontal.div(2 * SCALE)).sub(vertical.div(2 * SCALE)).sub(w.scale(focus_dist));
        Some(Camera {
            origin: look_from,
            lower_left_corner,
            horizontal,
            vertical,
            u,
            v,
            w,
            lens_radius: fixed::fx_div(aperture, 2 * SCALE),
        })
    }

    /// The ray through viewport point `(s, t)` from lens point `disk`.
    pub fn get_ray_with(&self, s: i64, t: i64, disk: Vec3) -> (r: Ray)
        requires
            self.wf(),
            in_range(s as int),
            in_range(t as int),
            disk.wf(),
        ensures
            r == ray_spec(*self, s as int, t as int, disk),
            r.wf(),
    {
        let rd = disk.scale(self.lens_radius);
        let offset = self.u.scale(rd.x).add(self.v.scale(rd.y));
        let target = self.lower_left_corner.add(self.horizontal.scale(s)).add(self.vertical.scale(t));
        Ray::new(self.origin.add(offset), target.sub(self.origin).sub(offset))
    }

    /// The ray through viewport point `(s, t)` from a random point of the lens.
    pub fn get_ray(&self, s: i64, t: i64, rng: &mut StdRng) -> (r: Ray)
        requires
            self.wf(),
            in_range(s as int),
            in_range(t as int),
        ensures
            exists|disk: Vec3|
                disk.wf() && disk.z == 0 && length_squared_spec(disk) < SCALE && #[trigger] ray_spec(*self, s as int, t as int, disk) == r,
            r.wf(),
    {
        let disk = rand_in_unit_disk(rng);
        self.get_ray_with(s, t, disk)
    }
}

} // verus!
