//! Rays: origin, unit direction and the precomputed inverse direction that
//! the slab test multiplies by instead of dividing.

use vstd::prelude::*;

use crate::fixed::{fx_div, fx_div_s, FX_ONE};
use crate::vec3::{v3_normalize, Vec3};

verus! {

#[derive(Clone, Copy, PartialEq, Eq, Structural, Debug)]
pub struct Ray3f {
    pub origin: Vec3,
    pub direction: Vec3,
    pub inv_d: Vec3,
}

/// Component-wise reciprocal. A zero component saturates to a signed
/// infinity, which makes the slab test reject or pass the axis outright.
pub open spec fn v3_inv(d: Vec3) -> Vec3 {
    Vec3 {
        x: fx_div_s(FX_ONE as int, d.x as int) as i64,
        y: fx_div_s(FX_ONE as int, d.y as int) as i64,
        z: fx_div_s(FX_ONE as int, d.z as int) as i64,
    }
}

/// What `Ray3f::new` builds: the direction is normalized at construction.
pub open spec fn ray_new_s(origin: Vec3, direction: Vec3) -> Ray3f {
    let d = v3_normalize(direction);
    Ray3f { origin, direction: d, inv_d: v3_inv(d) }
}

impl Ray3f {
    pub fn new(origin: Vec3, direction: Vec3) -> (r: Ray3f)
        ensures
            r == ray_new_s(origin, direction),
    {
        let d = direction.normalize();
        Ray3f {
            origin,
            direction: d,
            inv_d: Vec3 {
                x: fx_div(FX_ONE, d.x),
                y: fx_div(FX_ONE, d.y),
                z: fx_div(FX_ONE, d.z),
            },
        }
    }
}

} // verus!
