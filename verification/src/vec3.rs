//! Three-component fixed-point vectors, used both for points and directions,
//! and a two-component companion for film-plane coordinates.

use vstd::prelude::*;

use crate::fixed::{
    fx_add, fx_add_s, fx_div, fx_div_s, fx_mul, fx_mul_s, fx_sqrt, fx_sqrt_s, fx_sub, fx_sub_s,
    lemma_fx_square_nonneg,
};

verus! {

#[derive(Clone, Copy, PartialEq, Eq, Structural, Debug)]
pub struct Vec3 {
    pub x: i64,
    pub y: i64,
    pub z: i64,
}

#[derive(Clone, Copy, PartialEq, Eq, Structural, Debug)]
pub struct Vec2 {
    pub x: i64,
    pub y: i64,
}

pub open spec fn v3_add(a: Vec3, b: Vec3) -> Vec3 {
    Vec3 {
        x: fx_add_s(a.x as int, b.x as int) as i64,
        y: fx_add_s(a.y as int, b.y as int) as i64,
        z: fx_add_s(a.z as int, b.z as int) as i64,
    }
}

pub open spec fn v3_sub(a: Vec3, b: Vec3) -> Vec3 {
    Vec3 {
        x: fx_sub_s(a.x as int, b.x as int) as i64,
        y: fx_sub_s(a.y as int, b.y as int) as i64,
        z: fx_sub_s(a.z as int, b.z as int) as i64,
    }
}

pub open spec fn v3_neg(a: Vec3) -> Vec3 {
    Vec3 {
        x: fx_sub_s(0, a.x as int) as i64,
        y: fx_sub_s(0, a.y as int) as i64,
        z: fx_sub_s(0, a.z as int) as i64,
    }
}

/// Scale by a fixed-point factor.
pub open spec fn v3_scale(a: Vec3, k: int) -> Vec3 {
    Vec3 {
        x: fx_mul_s(a.x as int, k) as i64,
        y: fx_mul_s(a.y as int, k) as i64,
        z: fx_mul_s(a.z as int, k) as i64,
    }
}

/// Component-wise product, the attenuation operation on colors.
pub open spec fn v3_mul_ew(a: Vec3, b: Vec3) -> Vec3 {
    Vec3 {
        x: fx_mul_s(a.x as int, b.x as int) as i64,
        y: fx_mul_s(a.y as int, b.y as int) as i64,
        z: fx_mul_s(a.z as int, b.z as int) as i64,
    }
}

/// Component-wise division by a scalar.
pub open spec fn v3_div_s(a: Vec3, k: int) -> Vec3 {
    Vec3 {
        x: fx_div_s(a.x as int, k) as i64,
        y: fx_div_s(a.y as int, k) as i64,
        z: fx_div_s(a.z as int, k) as i64,
    }
}

pub open spec fn v3_dot(a: Vec3, b: Vec3) -> int {
    fx_add_s(
        fx_add_s(fx_mul_s(a.x as int, b.x as int), fx_mul_s(a.y as int, b.y as int)),
        fx_mul_s(a.z as int, b.z as int),
    )
}

pub open spec fn v3_mag2(a: Vec3) -> int {
    v3_dot(a, a)
}

pub open spec fn v3_cross(a: Vec3, b: Vec3) -> Vec3 {
    Vec3 {
        x: fx_sub_s(fx_mul_s(a.y as int, b.z as int), fx_mul_s(a.z as int, b.y as int)) as i64,
        y: fx_sub_s(fx_mul_s(a.z as int, b.x as int), fx_mul_s(a.x as int, b.z as int)) as i64,
        z: fx_sub_s(fx_mul_s(a.x as int, b.y as int), fx_mul_s(a.y as int, b.x as int)) as i64,
    }
}

/// Unit vector in the direction of `a`; the zero vector stays put, which
/// stands in for the undefined float result on degenerate input.
pub open spec fn v3_normalize(a: Vec3) -> Vec3 {
    let m = fx_sqrt_s(v3_mag2(a));
    if m == 0 {
        a
    } else {
        v3_div_s(a, m)
    }
}

pub open spec fn v3_from_value(k: i64) -> Vec3 {
    Vec3 { x: k, y: k, z: k }
}

pub proof fn lemma_v3_mag2_nonneg(a: Vec3)
    ensures
        0 <= v3_mag2(a),
{
    lemma_fx_square_nonneg(a.x as int);
    lemma_fx_square_nonneg(a.y as int);
    lemma_fx_square_nonneg(a.z as int);
}

impl Vec3 {
    pub fn new(x: i64, y: i64, z: i64) -> (r: Vec3)
        ensures
            r == (Vec3 { x, y, z }),
    {
        Vec3 { x, y, z }
    }

    pub fn zero() -> (r: Vec3)
        ensures
            r == v3_from_value(0),
    {
        Vec3 { x: 0, y: 0, z: 0 }
    }

    pub fn from_value(k: i64) -> (r: Vec3)
        ensures
            r == v3_from_value(k),
    {
        Vec3 { x: k, y: k, z: k }
    }

    pub fn add(&self, b: &Vec3) -> (r: Vec3)
        ensures
            r == v3_add(*self, *b),
    {
        Vec3 { x: fx_add(self.x, b.x), y: fx_add(self.y, b.y), z: fx_add(self.z, b.z) }
    }

    pub fn sub(&self, b: &Vec3) -> (r: Vec3)
        ensures
            r == v3_sub(*self, *b),
    {
        Vec3 { x: fx_sub(self.x, b.x), y: fx_sub(self.y, b.y), z: fx_sub(self.z, b.z) }
    }

    pub fn neg(&self) -> (r: Vec3)
        ensures
            r == v3_neg(*self),
    {
        Vec3 { x: fx_sub(0, self.x), y: fx_sub(0, self.y), z: fx_sub(0, self.z) }
    }

    pub fn scale(&self, k: i64) -> (r: Vec3)
        ensures
            r == v3_scale(*self, k as int),
    {
        Vec3 { x: fx_mul(self.x, k), y: fx_mul(self.y, k), z: fx_mul(self.z, k) }
    }

    pub fn mul_ew(&self, b: &Vec3) -> (r: Vec3)
        ensures
            r == v3_mul_ew(*self, *b),
    {
        Vec3 { x: fx_mul(self.x, b.x), y: fx_mul(self.y, b.y), z: fx_mul(self.z, b.z) }
    }

    pub fn div_s(&self, k: i64) -> (r: Vec3)
        ensures
            r == v3_div_s(*self, k as int),
    {
        Vec3 { x: fx_div(self.x, k), y: fx_div(self.y, k), z: fx_div(self.z, k) }
    }

    pub fn dot(&self, b: &Vec3) -> (r: i64)
        ensures
            r as int == v3_dot(*self, *b),
    {
        fx_add(fx_add(fx_mul(self.x, b.x), fx_mul(self.y, b.y)), fx_mul(self.z, b.z))
    }

    pub fn mag2(&self) -> (r: i64)
        ensures
            r as int == v3_mag2(*self),
            r >= 0,
    {
        proof {
            lemma_v3_mag2_nonneg(*self);
        }
        self.dot(self)
    }

    pub fn cross(&self, b: &Vec3) -> (r: Vec3)
        ensures
            r == v3_cross(*self, *b),
    {
        Vec3 {
            x: fx_sub(fx_mul(self.y, b.z), fx_mul(self.z, b.y)),
            y: fx_sub(fx_mul(self.z, b.x), fx_mul(self.x, b.z)),
            z: fx_sub(fx_mul(self.x, b.y), fx_mul(self.y, b.x)),
        }
    }

    pub fn mag(&self) -> (r: i64)
        ensures
            r as int == fx_sqrt_s(v3_mag2(*self)),
    {
        fx_sqrt(self.mag2())
    }

    pub fn normalize(&self) -> (r: Vec3)
        ensures
            r == v3_normalize(*self),
    {
        let m = fx_sqrt(self.mag2());
        if m == 0 {
            *self
        } else {
            self.div_s(m)
        }
    }
}

} // verus!
