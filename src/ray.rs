//! Rays: an origin and a direction, evaluated at a parameter.
use vstd::prelude::*;
use crate::fixed::in_range;
use crate::vec3::{Vec3, vadd, vscale};

verus! {

/// The half-width of the world box, raw (16384 units). Geometry and rays
/// inside it keep the exact intersection arithmetic within 128 bits.
pub const WORLD: i64 = 1073741824;

pub open spec fn in_world(v: Vec3) -> bool {
    -WORLD <= v.x <= WORLD && -WORLD <= v.y <= WORLD && -WORLD <= v.z <= WORLD
}

#[derive(Clone, Copy, Debug, PartialEq, Eq, Structural)]
pub struct Ray {
    pub orig: Vec3,
    pub dir: Vec3,
}

pub open spec fn at_spec(r: Ray, t: int) -> Vec3 {
    vadd(r.orig, vscale(r.dir, t))
}

impl Ray {
    /// Both vectors are fixed-point vectors.
    pub open spec fn wf(&self) -> bool {
        self.orig.wf() && self.dir.wf()
    }

    /// Origin and direction lie in the world box.
    pub open spec fn in_world(&self) -> bool {
        in_world(self.orig) && in_world(self.dir)
    }

    pub fn new(orig: Vec3, dir: Vec3) -> (r: Ray)
        ensures
            r.orig == orig,
            r.dir == dir,
    {
        Ray { orig, dir }
    }

    /// The point `orig + t * dir`.
    pub fn at(&self, t: i64) -> (r: Vec3)
        requires
            self.wf(),
            in_range(t as int),
        ensures
            r == at_spec(*self, t as int),
            r.wf(),
    {
        self.orig.add(self.dir.scale(t))
    }

    /// Whether the ray lies in the world box.
    pub fn check_world(&self) -> (r: bool)
        ensures
            r == self.in_world(),
    {
        within_world(self.orig) && within_world(self.dir)
    }
}

pub fn within_world(v: Vec3) -> (r: bool)
    ensures
        r == in_world(v),
{
    -WORLD <= v.x && v.x <= WORLD && -WORLD <= v.y && v.y <= WORLD && -WORLD <= v.z && v.z <= WORLD
}

} // verus!
