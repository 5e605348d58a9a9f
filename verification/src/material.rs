//! Scattering materials: diffuse, mirror-with-fuzz and dielectric. Each is a
//! pure decision from the incoming ray, hit point and normal (plus a random
//! draw) to an optional scattered ray and attenuation color; `None` means
//! the path is absorbed.

use vstd::prelude::*;

use rand::rngs::SmallRng;

use crate::fixed::{
    fx_add, fx_add_s, fx_div, fx_div_s, fx_mul, fx_mul_s, fx_sqrt, fx_sqrt_s, fx_sub, fx_sub_s,
    FX_ONE, FX_TWO,
};
use crate::geom::{ray_new_s, Ray3f};
use crate::util::{random, random_in_unit_sphere};
use crate::vec3::{
    v3_add, v3_dot, v3_from_value, v3_mag2, v3_neg, v3_normalize, v3_scale, v3_sub, Vec3,
};

verus! {

#[derive(Clone, Copy, PartialEq, Eq, Structural, Debug)]
pub struct Lambertian {
    pub albedo: Vec3,
}

#[derive(Clone, Copy, PartialEq, Eq, Structural, Debug)]
pub struct Metal {
    pub albedo: Vec3,
    pub fuzz: i64,
}

#[derive(Clone, Copy, PartialEq, Eq, Structural, Debug)]
pub struct Dielectric {
    pub ref_index: i64,
}

/// The materials the renderer knows, as a closed set of variants.
#[derive(Clone, Copy, PartialEq, Eq, Structural, Debug)]
pub enum Material {
    Lambertian(Lambertian),
    Metal(Metal),
    Dielectric(Dielectric),
}

/// Mirror reflection of `v` about `norm`, renormalized.
pub open spec fn reflect_s(v: Vec3, norm: Vec3) -> Vec3 {
    v3_normalize(v3_sub(v, v3_scale(v3_scale(norm, v3_dot(v, norm)), FX_TWO as int)))
}

fn reflect(v: &Vec3, norm: &Vec3) -> (r: Vec3)
    ensures
        r == reflect_s(*v, *norm),
{
    v.sub(&norm.scale(v.dot(norm)).scale(FX_TWO)).normalize()
}

/// Snell refraction of `v` through a surface with outward normal `norm` and
/// refraction ratio `ni_over_nt`; `None` under total internal reflection
/// (nonpositive discriminant).
pub open spec fn refract_s(v: Vec3, norm: Vec3, ni_over_nt: int) -> Option<Vec3> {
    let uv = v3_normalize(v);
    let dt = v3_dot(uv, norm);
    let discriminant = fx_sub_s(
        FX_ONE as int,
        fx_mul_s(fx_mul_s(ni_over_nt, ni_over_nt), fx_sub_s(FX_ONE as int, fx_mul_s(dt, dt))),
    );
    if discriminant > 0 {
        Some(
            v3_sub(
                v3_scale(v3_sub(uv, v3_scale(norm, dt)), ni_over_nt),
                v3_scale(norm, fx_sqrt_s(discriminant)),
            ),
        )
    } else {
        None
    }
}

fn refract(v: &Vec3, norm: &Vec3, ni_over_nt: i64) -> (r: Option<Vec3>)
    ensures
        r == refract_s(*v, *norm, ni_over_nt as int),
{
    let uv = v.normalize();
    let dt = uv.dot(norm);
    let discriminant = fx_sub(
        FX_ONE,
        fx_mul(fx_mul(ni_over_nt, ni_over_nt), fx_sub(FX_ONE, fx_mul(dt, dt))),
    );
    if discriminant > 0 {
        Some(uv.sub(&norm.scale(dt)).scale(ni_over_nt).sub(&norm.scale(fx_sqrt(discriminant))))
    } else {
        None
    }
}

/// Snell's law at normal incidence: a ray entering along the surface normal
/// refracts straight through, with a zero refraction angle, whatever the
/// refraction ratio.
pub proof fn lemma_refract_normal_incidence(ni_over_nt: int)
    ensures
        refract_s(
            Vec3 { x: 0, y: 0, z: ((-FX_ONE) as i64) },
            Vec3 { x: 0, y: 0, z: FX_ONE },
            ni_over_nt,
        ) == Some(Vec3 { x: 0, y: 0, z: ((-FX_ONE) as i64) }),
{
    let v = Vec3 { x: 0, y: 0, z: ((-FX_ONE) as i64) };
    let n = Vec3 { x: 0, y: 0, z: FX_ONE };
    let one = FX_ONE as int;
    assert(fx_mul_s(-one, -one) == one) by {
        assert((-one) * (-one) == 0x10000000000000000int) by (nonlinear_arith)
            requires
                one == 4294967296,
        ;
        assert(0x10000000000000000int / 4294967296 == 4294967296) by (nonlinear_arith);
    }
    assert(fx_mul_s(0, 0) == 0);
    assert(v3_mag2(v) == one);
    crate::fixed::lemma_sqrt_floor_unique(one * one, one);
    assert(fx_sqrt_s(one) == one);
    let uv = v3_normalize(v);
    assert(fx_div_s(-one, one) == -one) by {
        assert((-one) * one == -0x10000000000000000int) by (nonlinear_arith)
            requires
                one == 4294967296,
        ;
        assert(0x10000000000000000int / 4294967296 == 4294967296) by (nonlinear_arith);
    }
    assert(fx_div_s(0, one) == 0);
    assert(uv == v);
    let dt = v3_dot(uv, n);
    assert(dt == -one);
    // the angular term vanishes, so the discriminant is one for any ratio
    assert(fx_sub_s(one, fx_mul_s(dt, dt)) == 0);
    assert(fx_mul_s(fx_mul_s(ni_over_nt, ni_over_nt), 0) == 0) by {
        let q = fx_mul_s(ni_over_nt, ni_over_nt);
        assert(q * 0 == 0) by (nonlinear_arith);
    }
    assert(fx_mul_s(0, ni_over_nt) == 0) by {
        assert(0 * ni_over_nt == 0) by (nonlinear_arith);
    }
    assert(v3_sub(uv, v3_scale(n, dt)) == (Vec3 { x: 0, y: 0, z: 0 }));
    lemma_scale_by_zero_vec(ni_over_nt);
}

proof fn lemma_scale_by_zero_vec(k: int)
    ensures
        v3_scale(Vec3 { x: 0, y: 0, z: 0 }, k) == (Vec3 { x: 0, y: 0, z: 0 }),
{
    assert(0 * k == 0) by (nonlinear_arith);
}

/// Schlick's reflectance approximation.
pub open spec fn shlick_s(cosine: int, ref_idx: int) -> int {
    let r0 = fx_div_s(fx_sub_s(FX_ONE as int, ref_idx), fx_add_s(FX_ONE as int, ref_idx));
    let r0sq = fx_mul_s(r0, r0);
    let m = fx_sub_s(FX_ONE as int, cosine);
    let m5 = fx_mul_s(fx_mul_s(fx_mul_s(m, m), fx_mul_s(m, m)), m);
    fx_add_s(r0sq, fx_mul_s(fx_sub_s(FX_ONE as int, r0sq), m5))
}

fn shlick(cosine: i64, ref_idx: i64) -> (r: i64)
    ensures
        r as int == shlick_s(cosine as int, ref_idx as int),
{
    let r0 = fx_div(fx_sub(FX_ONE, ref_idx), fx_add(FX_ONE, ref_idx));
    let r0sq = fx_mul(r0, r0);
    let m = fx_sub(FX_ONE, cosine);
    let m5 = fx_mul(fx_mul(fx_mul(m, m), fx_mul(m, m)), m);
    fx_add(r0sq, fx_mul(fx_sub(FX_ONE, r0sq), m5))
}

/// What a metal draw decides, given the in-ball perturbation `s`: reflect,
/// perturb by `fuzz * s`, and absorb rays bent into the surface.
pub open spec fn metal_result_s(m: Metal, in_: Ray3f, point: Vec3, normal: Vec3, s: Vec3) -> Option<
    (Ray3f, Vec3),
> {
    let ray = ray_new_s(point, v3_add(reflect_s(in_.direction, normal), v3_scale(s, m.fuzz as int)));
    if v3_dot(ray.direction, normal) > 0 {
        Some((ray, m.albedo))
    } else {
        None
    }
}

/// What a dielectric draw decides, given the uniform draw `u`: pick the
/// entering or exiting geometry from the sign of the incidence cosine, try
/// Snell refraction, and choose reflection with Schlick probability.
pub open spec fn dielectric_result_s(
    d: Dielectric,
    in_: Ray3f,
    point: Vec3,
    normal: Vec3,
    u: int,
) -> Option<(Ray3f, Vec3)> {
    let reflected = reflect_s(in_.direction, normal);
    let dn = v3_dot(in_.direction, normal);
    let mag = fx_sqrt_s(v3_mag2(in_.direction));
    let outward = if dn > 0 {
        v3_neg(normal)
    } else {
        normal
    };
    let ni_over_nt = if dn > 0 {
        d.ref_index as int
    } else {
        fx_div_s(FX_ONE as int, d.ref_index as int)
    };
    let cosine = if dn > 0 {
        fx_div_s(fx_mul_s(d.ref_index as int, dn), mag)
    } else {
        fx_div_s(fx_sub_s(0, dn), mag)
    };
    let reflect_p = shlick_s(cosine, d.ref_index as int);
    let out = match refract_s(in_.direction, outward, ni_over_nt) {
        Some(refracted) => if u >= reflect_p {
            refracted
        } else {
            reflected
        },
        None => reflected,
    };
    Some((ray_new_s(point, out), v3_from_value(FX_ONE)))
}

/// What `scatter` may return for each material, over the random draw it
/// consumed: diffuse bounces toward the normal plus an in-ball point, metal
/// mirrors with fuzz, dielectric splits between reflection and refraction.
pub open spec fn scatter_post(
    m: Material,
    in_: Ray3f,
    point: Vec3,
    normal: Vec3,
    r: Option<(Ray3f, Vec3)>,
) -> bool {
    match m {
        Material::Lambertian(l) => exists|s: Vec3|
            #![trigger v3_mag2(s)]
            v3_mag2(s) < FX_ONE as int && r == Some((ray_new_s(point, v3_add(normal, s)), l.albedo)),
        Material::Metal(mt) => exists|s: Vec3|
            #![trigger v3_mag2(s)]
            v3_mag2(s) < FX_ONE as int && r == metal_result_s(mt, in_, point, normal, s),
        Material::Dielectric(d) => exists|u: int|
            #![trigger dielectric_result_s(d, in_, point, normal, u)]
            0 <= u < FX_ONE as int && r == dielectric_result_s(d, in_, point, normal, u),
    }
}

/// Albedo components are never negative; what a well-formed scene asks of
/// its materials.
pub open spec fn material_wf(m: Material) -> bool {
    match m {
        Material::Lambertian(l) => l.albedo.x >= 0 && l.albedo.y >= 0 && l.albedo.z >= 0,
        Material::Metal(mt) => mt.albedo.x >= 0 && mt.albedo.y >= 0 && mt.albedo.z >= 0
            && mt.fuzz >= 0,
        Material::Dielectric(_) => true,
    }
}

impl Lambertian {
    pub fn scatter(&self, _in: Ray3f, point: Vec3, normal: Vec3, rng: &mut SmallRng) -> (r: Option<
        (Ray3f, Vec3),
    >)
        ensures
            scatter_post(Material::Lambertian(*self), _in, point, normal, r),
            r is Some,
    {
        let s = random_in_unit_sphere(rng);
        let ray = Ray3f::new(point, normal.add(&s));
        let r = Some((ray, self.albedo));
        proof {
            assert(v3_mag2(s) < FX_ONE as int && r == Some(
                (ray_new_s(point, v3_add(normal, s)), self.albedo),
            ));
        }
        r
    }
}

impl Metal {
    pub fn scatter(&self, in_: Ray3f, point: Vec3, normal: Vec3, rng: &mut SmallRng) -> (r: Option<
        (Ray3f, Vec3),
    >)
        ensures
            scatter_post(Material::Metal(*self), in_, point, normal, r),
            self.fuzz == 0 ==> r == metal_result_s(
                *self,
                in_,
                point,
                normal,
                v3_from_value(0),
            ),
    {
        let s = random_in_unit_sphere(rng);
        let reflected = reflect(&in_.direction, &normal);
        let scattered = Ray3f::new(point, reflected.add(&s.scale(self.fuzz)));
        let r = if scattered.direction.dot(&normal) > 0 {
            Some((scattered, self.albedo))
        } else {
            None
        };
        proof {
            assert(v3_mag2(s) < FX_ONE as int && r == metal_result_s(
                *self,
                in_,
                point,
                normal,
                s,
            ));
            if self.fuzz == 0 {
                lemma_scale_by_zero(s);
                lemma_scale_by_zero(v3_from_value(0));
                assert(r == metal_result_s(*self, in_, point, normal, v3_from_value(0)));
            }
        }
        r
    }
}

/// Scaling by a zero factor yields the zero vector, whatever the vector.
pub proof fn lemma_scale_by_zero(s: Vec3)
    ensures
        v3_scale(s, 0) == v3_from_value(0),
{
    assert(fx_mul_s(s.x as int, 0) == 0);
    assert(fx_mul_s(s.y as int, 0) == 0);
    assert(fx_mul_s(s.z as int, 0) == 0);
}

/// A metal surface with zero fuzz is an exact mirror: the scattered ray does
/// not depend on the random perturbation at all, so repeated draws for the
/// same incoming ray and normal always agree.
pub proof fn lemma_metal_fuzz_zero_deterministic(
    m: Metal,
    in_: Ray3f,
    point: Vec3,
    normal: Vec3,
    s1: Vec3,
    s2: Vec3,
)
    requires
        m.fuzz == 0,
    ensures
        metal_result_s(m, in_, point, normal, s1) == metal_result_s(m, in_, point, normal, s2),
{
    lemma_scale_by_zero(s1);
    lemma_scale_by_zero(s2);
}

impl Dielectric {
    pub fn scatter(&self, in_: Ray3f, point: Vec3, normal: Vec3, rng: &mut SmallRng) -> (r: Option<
        (Ray3f, Vec3),
    >)
        ensures
            scatter_post(Material::Dielectric(*self), in_, point, normal, r),
            r is Some,
    {
        let reflected = reflect(&in_.direction, &normal);
        let dn = in_.direction.dot(&normal);
        let mag = in_.direction.mag();
        let (outward, ni_over_nt, cosine) = if dn > 0 {
            (normal.neg(), self.ref_index, fx_div(fx_mul(self.ref_index, dn), mag))
        } else {
            (normal, fx_div(FX_ONE, self.ref_index), fx_div(fx_sub(0, dn), mag))
        };
        let attenuation = Vec3::from_value(FX_ONE);
        let reflect_p = shlick(cosine, self.ref_index);
        let u = random(rng);
        let out = match refract(&in_.direction, &outward, ni_over_nt) {
            Some(refracted) => if u >= reflect_p {
                refracted
            } else {
                reflected
            },
            None => reflected,
        };
        let r = Some((Ray3f::new(point, out), attenuation));
        proof {
            assert(0 <= (u as int) && (u as int) < FX_ONE as int && r == dielectric_result_s(
                *self,
                in_,
                point,
                normal,
                u as int,
            ));
        }
        r
    }
}

impl Material {
    /// Dispatch to the variant's scattering rule.
    pub fn scatter(&self, in_: Ray3f, point: Vec3, normal: Vec3, rng: &mut SmallRng) -> (r: Option<
        (Ray3f, Vec3),
    >)
        ensures
            scatter_post(*self, in_, point, normal, r),
    {
        match self {
            Material::Lambertian(l) => l.scatter(in_, point, normal, rng),
            Material::Metal(m) => m.scatter(in_, point, normal, rng),
            Material::Dielectric(d) => d.scatter(in_, point, normal, rng),
        }
    }
}

/// Whatever a well-formed material scatters, the ray starts at the hit point
/// and the attenuation has no negative component.
pub proof fn lemma_scatter_basic(
    m: Material,
    in_: Ray3f,
    point: Vec3,
    normal: Vec3,
    r: Option<(Ray3f, Vec3)>,
)
    requires
        material_wf(m),
        scatter_post(m, in_, point, normal, r),
        r is Some,
    ensures
        (r->Some_0).0.origin == point,
        (r->Some_0).1.x >= 0,
        (r->Some_0).1.y >= 0,
        (r->Some_0).1.z >= 0,
{
    match m {
        Material::Lambertian(l) => {
            let s = choose|s: Vec3|
                #![trigger v3_mag2(s)]
                v3_mag2(s) < FX_ONE as int && r == Some(
                    (ray_new_s(point, v3_add(normal, s)), l.albedo),
                );
        },
        Material::Metal(mt) => {
            let s = choose|s: Vec3|
                #![trigger v3_mag2(s)]
                v3_mag2(s) < FX_ONE as int && r == metal_result_s(mt, in_, point, normal, s);
        },
        Material::Dielectric(d) => {
            let u = choose|u: int|
                #![trigger dielectric_result_s(d, in_, point, normal, u)]
                0 <= u < FX_ONE as int && r == dielectric_result_s(d, in_, point, normal, u);
        },
    }
}

} // verus!
