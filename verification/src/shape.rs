//! Axis-aligned bounding boxes with the ray slab test, and the sphere shape.

use vstd::prelude::*;

use crate::fixed::{
    abs_i, fx_add, fx_add_s, fx_div, fx_div_s, fx_max, fx_min, fx_mul, fx_mul_s, fx_sqrt,
    fx_sqrt_s, fx_sub, fx_sub_s, lemma_fx_mul_mono, lemma_sqrt_floor_unique, max_s, min_s, sat64,
    FX_EPS, FX_HALF, FX_ONE, FX_TWO,
};
use crate::geom::{ray_new_s, Ray3f};
use crate::vec3::{
    v3_add, v3_dot, v3_from_value, v3_mag2, v3_normalize, v3_scale, v3_sub, Vec3,
};

verus! {

#[derive(Clone, Copy, PartialEq, Eq, Structural, Debug)]
pub struct AABB {
    pub min: Vec3,
    pub max: Vec3,
}

/// The canonical empty box, the identity of `union`.
pub open spec fn aabb_empty_s() -> AABB {
    AABB { min: v3_from_value(i64::MAX), max: v3_from_value(i64::MIN) }
}

pub open spec fn aabb_union_s(a: AABB, b: AABB) -> AABB {
    AABB {
        min: Vec3 {
            x: min_s(a.min.x as int, b.min.x as int) as i64,
            y: min_s(a.min.y as int, b.min.y as int) as i64,
            z: min_s(a.min.z as int, b.min.z as int) as i64,
        },
        max: Vec3 {
            x: max_s(a.max.x as int, b.max.x as int) as i64,
            y: max_s(a.max.y as int, b.max.y as int) as i64,
            z: max_s(a.max.z as int, b.max.z as int) as i64,
        },
    }
}

pub open spec fn aabb_union_p_s(a: AABB, p: Vec3) -> AABB {
    AABB {
        min: Vec3 {
            x: min_s(a.min.x as int, p.x as int) as i64,
            y: min_s(a.min.y as int, p.y as int) as i64,
            z: min_s(a.min.z as int, p.z as int) as i64,
        },
        max: Vec3 {
            x: max_s(a.max.x as int, p.x as int) as i64,
            y: max_s(a.max.y as int, p.y as int) as i64,
            z: max_s(a.max.z as int, p.z as int) as i64,
        },
    }
}

/// `small` fits inside `big`, component-wise.
pub open spec fn aabb_contains_box(big: AABB, small: AABB) -> bool {
    &&& big.min.x <= small.min.x
    &&& big.min.y <= small.min.y
    &&& big.min.z <= small.min.z
    &&& small.max.x <= big.max.x
    &&& small.max.y <= big.max.y
    &&& small.max.z <= big.max.z
}

/// Entry/exit parameters of one slab, already swapped for negative inverse
/// directions: the first component is the entry, the second the exit.
pub open spec fn slab_s(bmin: int, bmax: int, o: int, inv: int) -> (int, int) {
    let t0 = fx_mul_s(fx_sub_s(bmin, o), inv);
    let t1 = fx_mul_s(fx_sub_s(bmax, o), inv);
    if inv < 0 {
        (t1, t0)
    } else {
        (t0, t1)
    }
}

/// The slab test: the running parameter interval, seeded at
/// `[FX_EPS, i64::MAX]` to avoid self-intersection at the origin, stays
/// nonempty after being cut down by all three axes.
#[verifier::opaque]
pub open spec fn aabb_hit_s(b: AABB, r: Ray3f) -> bool {
    let sx = slab_s(b.min.x as int, b.max.x as int, r.origin.x as int, r.inv_d.x as int);
    let sy = slab_s(b.min.y as int, b.max.y as int, r.origin.y as int, r.inv_d.y as int);
    let sz = slab_s(b.min.z as int, b.max.z as int, r.origin.z as int, r.inv_d.z as int);
    let tmin = max_s(max_s(max_s(FX_EPS as int, sx.0), sy.0), sz.0);
    let tmax = min_s(min_s(min_s(i64::MAX as int, sx.1), sy.1), sz.1);
    tmax > tmin
}

impl AABB {
    pub fn empty() -> (r: AABB)
        ensures
            r == aabb_empty_s(),
    {
        AABB { min: Vec3::from_value(i64::MAX), max: Vec3::from_value(i64::MIN) }
    }

    pub fn new(min: Vec3, max: Vec3) -> (r: AABB)
        ensures
            r == (AABB { min, max }),
    {
        AABB { min, max }
    }

    pub fn union(&self, other: &AABB) -> (r: AABB)
        ensures
            r == aabb_union_s(*self, *other),
    {
        AABB {
            min: Vec3 {
                x: fx_min(self.min.x, other.min.x),
                y: fx_min(self.min.y, other.min.y),
                z: fx_min(self.min.z, other.min.z),
            },
            max: Vec3 {
                x: fx_max(self.max.x, other.max.x),
                y: fx_max(self.max.y, other.max.y),
                z: fx_max(self.max.z, other.max.z),
            },
        }
    }

    pub fn union_p(&self, other: &Vec3) -> (r: AABB)
        ensures
            r == aabb_union_p_s(*self, *other),
    {
        AABB {
            min: Vec3 {
                x: fx_min(self.min.x, other.x),
                y: fx_min(self.min.y, other.y),
                z: fx_min(self.min.z, other.z),
            },
            max: Vec3 {
                x: fx_max(self.max.x, other.x),
                y: fx_max(self.max.y, other.y),
                z: fx_max(self.max.z, other.z),
            },
        }
    }

    pub fn intersect(&self, r: Ray3f) -> (hit: bool)
        ensures
            hit == aabb_hit_s(*self, r),
    {
        proof {
            reveal(crate::shape::aabb_hit_s);
        }
        let (x0, x1) = Self::slab(self.min.x, self.max.x, r.origin.x, r.inv_d.x);
        let (y0, y1) = Self::slab(self.min.y, self.max.y, r.origin.y, r.inv_d.y);
        let (z0, z1) = Self::slab(self.min.z, self.max.z, r.origin.z, r.inv_d.z);
        let tmin = fx_max(fx_max(fx_max(FX_EPS, x0), y0), z0);
        let tmax = fx_min(fx_min(fx_min(i64::MAX, x1), y1), z1);
        tmax > tmin
    }

    fn slab(bmin: i64, bmax: i64, o: i64, inv: i64) -> (r: (i64, i64))
        ensures
            (r.0 as int, r.1 as int) == slab_s(bmin as int, bmax as int, o as int, inv as int),
    {
        let t0 = fx_mul(fx_sub(bmin, o), inv);
        let t1 = fx_mul(fx_sub(bmax, o), inv);
        if inv < 0 {
            (t1, t0)
        } else {
            (t0, t1)
        }
    }

    pub fn offset_p(&self, p: &Vec3) -> (r: Vec3)
        ensures
            r == aabb_offset_s(*self, *p),
    {
        Vec3 {
            x: Self::offset_axis(p.x, self.min.x, self.max.x),
            y: Self::offset_axis(p.y, self.min.y, self.max.y),
            z: Self::offset_axis(p.z, self.min.z, self.max.z),
        }
    }

    fn offset_axis(p: i64, mn: i64, mx: i64) -> (r: i64)
        ensures
            r as int == offset_axis_s(p as int, mn as int, mx as int),
    {
        let d = fx_sub(p, mn);
        if mx > mn {
            fx_div(d, fx_sub(mx, mn))
        } else {
            d
        }
    }

    pub fn diagonal(&self) -> (r: Vec3)
        ensures
            r == v3_sub(self.max, self.min),
    {
        self.max.sub(&self.min)
    }

    pub fn surface_area(&self) -> (r: i64)
        ensures
            r as int == aabb_area_s(*self),
    {
        let d = self.diagonal();
        fx_mul(
            FX_TWO,
            fx_add(fx_add(fx_mul(d.x, d.y), fx_mul(d.y, d.z)), fx_mul(d.x, d.z)),
        )
    }

    pub fn center(&self) -> (r: Vec3)
        ensures
            r == aabb_center_s(*self),
    {
        Vec3 {
            x: fx_div(fx_add(self.min.x, self.max.x), FX_TWO),
            y: fx_div(fx_add(self.min.y, self.max.y), FX_TWO),
            z: fx_div(fx_add(self.min.z, self.max.z), FX_TWO),
        }
    }
}

pub open spec fn offset_axis_s(p: int, mn: int, mx: int) -> int {
    let d = fx_sub_s(p, mn);
    if mx > mn {
        fx_div_s(d, fx_sub_s(mx, mn))
    } else {
        d
    }
}

pub open spec fn aabb_offset_s(b: AABB, p: Vec3) -> Vec3 {
    Vec3 {
        x: offset_axis_s(p.x as int, b.min.x as int, b.max.x as int) as i64,
        y: offset_axis_s(p.y as int, b.min.y as int, b.max.y as int) as i64,
        z: offset_axis_s(p.z as int, b.min.z as int, b.max.z as int) as i64,
    }
}

pub open spec fn aabb_area_s(b: AABB) -> int {
    let d = v3_sub(b.max, b.min);
    fx_mul_s(
        FX_TWO as int,
        fx_add_s(
            fx_add_s(fx_mul_s(d.x as int, d.y as int), fx_mul_s(d.y as int, d.z as int)),
            fx_mul_s(d.x as int, d.z as int),
        ),
    )
}

pub open spec fn aabb_center_s(b: AABB) -> Vec3 {
    Vec3 {
        x: fx_div_s(fx_add_s(b.min.x as int, b.max.x as int), FX_TWO as int) as i64,
        y: fx_div_s(fx_add_s(b.min.y as int, b.max.y as int), FX_TWO as int) as i64,
        z: fx_div_s(fx_add_s(b.min.z as int, b.max.z as int), FX_TWO as int) as i64,
    }
}

/// Union never loses either operand: both arguments fit in the result.
pub proof fn lemma_union_contains(a: AABB, b: AABB)
    ensures
        aabb_contains_box(aabb_union_s(a, b), a),
        aabb_contains_box(aabb_union_s(a, b), b),
{
}

pub proof fn lemma_contains_trans(a: AABB, b: AABB, c: AABB)
    requires
        aabb_contains_box(a, b),
        aabb_contains_box(b, c),
    ensures
        aabb_contains_box(a, c),
{
}

/// Union of boxes is commutative.
pub proof fn lemma_union_comm(a: AABB, b: AABB)
    ensures
        aabb_union_s(a, b) == aabb_union_s(b, a),
{
}

/// Union of boxes is associative.
pub proof fn lemma_union_assoc(a: AABB, b: AABB, c: AABB)
    ensures
        aabb_union_s(aabb_union_s(a, b), c) == aabb_union_s(a, aabb_union_s(b, c)),
{
}

/// Union of boxes is idempotent.
pub proof fn lemma_union_idem(a: AABB)
    ensures
        aabb_union_s(a, a) == a,
{
}

/// The empty box is the identity of union, on either side.
pub proof fn lemma_union_empty(a: AABB)
    ensures
        aabb_union_s(aabb_empty_s(), a) == a,
        aabb_union_s(a, aabb_empty_s()) == a,
{
}

proof fn lemma_slab_mono(bminb: int, bmaxb: int, bmins: int, bmaxs: int, o: int, inv: int)
    requires
        bminb <= bmins,
        bmaxs <= bmaxb,
    ensures
        slab_s(bminb, bmaxb, o, inv).0 <= slab_s(bmins, bmaxs, o, inv).0,
        slab_s(bmins, bmaxs, o, inv).1 <= slab_s(bminb, bmaxb, o, inv).1,
{
    lemma_fx_mul_mono(fx_sub_s(bminb, o), fx_sub_s(bmins, o), inv);
    lemma_fx_mul_mono(fx_sub_s(bmaxs, o), fx_sub_s(bmaxb, o), inv);
}

/// A ray that hits a box also hits every box that contains it. This is what
/// lets the hierarchy prune: missing a node's box rules out everything below.
pub proof fn lemma_aabb_hit_monotone(big: AABB, small: AABB, r: Ray3f)
    requires
        aabb_contains_box(big, small),
        aabb_hit_s(small, r),
    ensures
        aabb_hit_s(big, r),
{
    reveal(crate::shape::aabb_hit_s);
    lemma_slab_mono(
        big.min.x as int,
        big.max.x as int,
        small.min.x as int,
        small.max.x as int,
        r.origin.x as int,
        r.inv_d.x as int,
    );
    lemma_slab_mono(
        big.min.y as int,
        big.max.y as int,
        small.min.y as int,
        small.max.y as int,
        r.origin.y as int,
        r.inv_d.y as int,
    );
    lemma_slab_mono(
        big.min.z as int,
        big.max.z as int,
        small.min.z as int,
        small.max.z as int,
        r.origin.z as int,
        r.inv_d.z as int,
    );
}

#[derive(Clone, Copy, PartialEq, Eq, Structural, Debug)]
pub struct Sphere {
    pub center: Vec3,
    /// Signed: a negative radius flips the outward normal, modelling a
    /// hollow inner surface.
    pub radius: i64,
}

/// Outward normal at `p`, flipped for negative radii.
pub open spec fn sphere_normal_s(s: Sphere, p: Vec3) -> Vec3 {
    let n = v3_normalize(v3_sub(p, s.center));
    if s.radius > 0 {
        v3_scale(n, FX_ONE as int)
    } else {
        v3_scale(n, -(FX_ONE as int))
    }
}

/// The sphere intersection case split: the origin is first nudged forward to
/// avoid re-hitting the surface it spawned on. From outside, reject rays
/// heading away or passing farther than the radius, then take the near root
/// (the far root on an exact graze); from inside, always take the far root.
#[verifier::opaque]
pub open spec fn sphere_hit_s(s: Sphere, r0: Ray3f) -> Option<(Vec3, Vec3)> {
    let rr = ray_new_s(v3_add(r0.origin, v3_scale(r0.direction, FX_EPS as int)), r0.direction);
    let r2 = fx_mul_s(s.radius as int, s.radius as int);
    let l = v3_sub(s.center, rr.origin);
    if v3_mag2(l) >= r2 {
        let tca = v3_dot(l, rr.direction);
        if tca <= 0 {
            None
        } else {
            let d2 = fx_sub_s(v3_mag2(l), fx_mul_s(tca, tca));
            if d2 >= r2 {
                None
            } else {
                let thc = fx_sqrt_s(fx_sub_s(r2, d2));
                let t = if tca != thc {
                    fx_sub_s(tca, thc)
                } else {
                    fx_add_s(tca, thc)
                };
                let p = v3_add(rr.origin, v3_scale(rr.direction, t));
                Some((p, sphere_normal_s(s, p)))
            }
        }
    } else {
        let tca = v3_dot(l, rr.direction);
        let d2 = fx_sub_s(v3_mag2(l), fx_mul_s(tca, tca));
        let thc = fx_sqrt_s(fx_sub_s(r2, d2));
        let p = v3_add(rr.origin, v3_scale(rr.direction, fx_add_s(tca, thc)));
        Some((p, sphere_normal_s(s, p)))
    }
}

/// Magnitude of the signed radius, clamped into the raw range: the box of a
/// hollow (negative-radius) sphere is the box of its surface, not an
/// inverted pair of corners.
pub open spec fn sphere_abs_radius_s(s: Sphere) -> i64 {
    sat64(abs_i(s.radius as int)) as i64
}

pub open spec fn sphere_bbox_s(s: Sphere) -> AABB {
    AABB {
        min: v3_sub(s.center, v3_from_value(sphere_abs_radius_s(s))),
        max: v3_add(s.center, v3_from_value(sphere_abs_radius_s(s))),
    }
}

/// A sphere's box is always properly ordered: `min <= max` on every axis,
/// whatever the sign of the radius.
pub proof fn lemma_sphere_bbox_ordered(s: Sphere)
    ensures
        sphere_bbox_s(s).min.x <= sphere_bbox_s(s).max.x,
        sphere_bbox_s(s).min.y <= sphere_bbox_s(s).max.y,
        sphere_bbox_s(s).min.z <= sphere_bbox_s(s).max.z,
{
}

impl Sphere {
    pub fn intersect(&self, r0: Ray3f) -> (hit: Option<(Vec3, Vec3)>)
        ensures
            hit == sphere_hit_s(*self, r0),
    {
        proof {
            reveal(crate::shape::sphere_hit_s);
        }
        let rr = Ray3f::new(r0.origin.add(&r0.direction.scale(FX_EPS)), r0.direction);
        let r2 = fx_mul(self.radius, self.radius);
        let l = self.center.sub(&rr.origin);
        if l.mag2() >= r2 {
            let tca = l.dot(&rr.direction);
            if tca <= 0 {
                return None;
            }
            let d2 = fx_sub(l.mag2(), fx_mul(tca, tca));
            if d2 >= r2 {
                return None;
            }
            let thc = fx_sqrt(fx_sub(r2, d2));
            let t = if tca != thc {
                fx_sub(tca, thc)
            } else {
                fx_add(tca, thc)
            };
            let p = rr.origin.add(&rr.direction.scale(t));
            Some((p, self.normal_at(&p)))
        } else {
            let tca = l.dot(&rr.direction);
            let d2 = fx_sub(l.mag2(), fx_mul(tca, tca));
            let thc = fx_sqrt(fx_sub(r2, d2));
            let p = rr.origin.add(&rr.direction.scale(fx_add(tca, thc)));
            Some((p, self.normal_at(&p)))
        }
    }

    fn normal_at(&self, p: &Vec3) -> (n: Vec3)
        ensures
            n == sphere_normal_s(*self, *p),
    {
        let n = p.sub(&self.center).normalize();
        if self.radius > 0 {
            n.scale(FX_ONE)
        } else {
            n.scale(-FX_ONE)
        }
    }

    pub fn bounding_box(&self) -> (r: Option<AABB>)
        ensures
            r == Some(sphere_bbox_s(*self)),
    {
        let m = if self.radius >= 0 {
            self.radius
        } else if self.radius == i64::MIN {
            i64::MAX
        } else {
            -self.radius
        };
        let rad = Vec3::from_value(m);
        Some(AABB::new(self.center.sub(&rad), self.center.add(&rad)))
    }
}

/// A ray that stays at least the sphere's radius away from its center, or
/// that heads away from an outside sphere, is never reported as a hit: when
/// the squared perpendicular distance `d2` reaches the squared radius, or
/// the projection `tca` is not positive, the intersection is `None`.
pub proof fn lemma_sphere_miss(s: Sphere, r0: Ray3f)
    requires
        ({
            let rr = ray_new_s(
                v3_add(r0.origin, v3_scale(r0.direction, FX_EPS as int)),
                r0.direction,
            );
            let r2 = fx_mul_s(s.radius as int, s.radius as int);
            let l = v3_sub(s.center, rr.origin);
            let tca = v3_dot(l, rr.direction);
            let d2 = fx_sub_s(v3_mag2(l), fx_mul_s(tca, tca));
            v3_mag2(l) >= r2 && (tca <= 0 || d2 >= r2)
        }),
    ensures
        sphere_hit_s(s, r0) is None,
{
    reveal(crate::shape::sphere_hit_s);
}

/// A ray whose origin lies strictly inside the sphere always exits through
/// the surface: the intersection is never `None` from inside.
pub proof fn lemma_sphere_inside_always_exits(s: Sphere, r0: Ray3f)
    requires
        ({
            let rr = ray_new_s(
                v3_add(r0.origin, v3_scale(r0.direction, FX_EPS as int)),
                r0.direction,
            );
            let r2 = fx_mul_s(s.radius as int, s.radius as int);
            let l = v3_sub(s.center, rr.origin);
            v3_mag2(l) < r2
        }),
    ensures
        sphere_hit_s(s, r0) is Some,
{
    reveal(crate::shape::sphere_hit_s);
}

/// One exact instance of the surface property: for the head-on ray from
/// the origin onto the sphere at distance one with radius one half, the
/// reported hit point lies exactly on the surface. The forward nudge of the
/// ray origin cancels out of the hit point, so the distance from the center
/// equals the radius with no rounding error at all.
pub proof fn lemma_sphere_hit_on_surface_head_on()
    ensures
        ({
            let s = Sphere { center: Vec3 { x: 0, y: 0, z: (-FX_ONE) as i64 }, radius: FX_HALF };
            let r0 = ray_new_s(
                Vec3 { x: 0, y: 0, z: 0 },
                Vec3 { x: 0, y: 0, z: (-FX_ONE) as i64 },
            );
            let hit = sphere_hit_s(s, r0);
            hit is Some && fx_sqrt_s(v3_mag2(v3_sub((hit->0).0, s.center))) == s.radius as int
        }),
{
    reveal(crate::shape::sphere_hit_s);
    let one = FX_ONE as int;
    let half = FX_HALF as int;
    let eps = FX_EPS as int;
    let amag = one - eps;
    let q = 4294958706int;
    let rem = 18447025int;
    let tval = amag - half;
    // a unit direction down the axis normalizes to itself
    assert(fx_mul_s(0, 0) == 0);
    assert((-one) * (-one) == 0x10000000000000000int) by (nonlinear_arith)
        requires
            one == 4294967296,
    ;
    assert(half * half == 0x4000000000000000int) by (nonlinear_arith)
        requires
            half == 2147483648,
    ;
    assert(amag * amag == q * one + rem) by (nonlinear_arith)
        requires
            one == 4294967296,
            amag == one - 4295,
            q == 4294958706,
            rem == 18447025,
    ;
    assert((-amag) * (-amag) == amag * amag) by (nonlinear_arith);
    assert((-amag) * (-one) == amag * one && (-one) * tval == -(tval * one) && (-one) * eps == -(
    eps * one)) by (nonlinear_arith);
    assert(amag * one == amag * one + 0 && tval * one == tval * one + 0 && eps * one == eps * one
        + 0);
    assert(0x10000000000000000int / 4294967296 == 4294967296) by (nonlinear_arith);
    assert(0x4000000000000000int / 4294967296 == 1073741824) by (nonlinear_arith);
    lemma_sqrt_floor_unique(one * one, one);
    assert(fx_sqrt_s(one) == one);
    assert(fx_div_s(-one, one) == -one) by {
        assert((-one) * one == -0x10000000000000000int) by (nonlinear_arith)
            requires
                one == 4294967296,
        ;
    }
    assert(fx_div_s(0, one) == 0);
    let down = Vec3 { x: 0, y: 0, z: (-FX_ONE) as i64 };
    assert(v3_normalize(down) == down);
    // the nudged origin and the geometric quantities of the case split
    vstd::arithmetic::div_mod::lemma_fundamental_div_mod_converse_div(eps * one, one, eps, 0);
    assert(fx_mul_s(-one, eps) == -eps);
    vstd::arithmetic::div_mod::lemma_fundamental_div_mod_converse_div(amag * amag, one, q, rem);
    assert(fx_mul_s(-amag, -amag) == q);
    vstd::arithmetic::div_mod::lemma_fundamental_div_mod_converse_div(amag * one, one, amag, 0);
    assert(fx_mul_s(-amag, -one) == amag);
    // the perpendicular term vanishes and the half-chord is exactly one half
    assert(fx_mul_s(half, half) == 1073741824);
    assert(fx_sqrt_s(1073741824) == half) by {
        assert(half * half == 1073741824 * one) by (nonlinear_arith)
            requires
                half == 2147483648,
                one == 4294967296,
        ;
        lemma_sqrt_floor_unique(1073741824 * one, half);
    }
    // the hit point: the nudge and the travel distance add back to one half
    vstd::arithmetic::div_mod::lemma_fundamental_div_mod_converse_div(tval * one, one, tval, 0);
    assert(fx_mul_s(-one, tval) == -tval);
    assert(eps + tval == half);
}

/// The shapes the renderer knows, as a closed set of variants.
#[derive(Clone, Copy, PartialEq, Eq, Structural, Debug)]
pub enum Shape {
    Sphere(Sphere),
}

pub open spec fn shape_hit_s(sh: Shape, r: Ray3f) -> Option<(Vec3, Vec3)> {
    match sh {
        Shape::Sphere(s) => sphere_hit_s(s, r),
    }
}

pub open spec fn shape_bbox_s(sh: Shape) -> Option<AABB> {
    match sh {
        Shape::Sphere(s) => Some(sphere_bbox_s(s)),
    }
}

impl Shape {
    pub fn intersect(&self, r: Ray3f) -> (hit: Option<(Vec3, Vec3)>)
        ensures
            hit == shape_hit_s(*self, r),
    {
        match self {
            Shape::Sphere(s) => s.intersect(r),
        }
    }

    pub fn bounding_box(&self) -> (r: Option<AABB>)
        ensures
            r == shape_bbox_s(*self),
    {
        match self {
            Shape::Sphere(s) => s.bounding_box(),
        }
    }
}

} // verus!
