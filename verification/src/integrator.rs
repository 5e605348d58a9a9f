//! The light-transport integrator: an iterative bounce loop with
//! Russian-roulette termination, plus the gamma step applied to each sample
//! before it reaches the framebuffer.

use vstd::prelude::*;

use rand::rngs::SmallRng;

use crate::aggregate::{brute_force_s, Aggregate};
use crate::fixed::{
    fx_add, fx_div, fx_max, fx_min, fx_mul_s, fx_sqrt, fx_sqrt_s, lemma_fx_div_nonneg,
    lemma_fx_mul_nonneg, lemma_fx_mul_one, max_s, min_s, FX_HALF, FX_ONE, FX_TWO,
};
use crate::geom::Ray3f;
use crate::material::{lemma_scatter_basic, scatter_post};
use crate::prims::{prim_hit_s, ShapePrimitive, SurfaceInteraction};
use crate::vec3::{v3_div_s, v3_from_value, v3_mul_ew, Vec3};

verus! {

/// Raw fixed-point value of 0.7, the sky gradient's blue-green component.
pub const FX_SKY_G: i64 = 3006477107;

/// Raw fixed-point value of 0.95, the roulette survival cap.
pub const FX_ROULETTE_CAP: i64 = 4080218931;

pub open spec fn all_nonneg(v: Vec3) -> bool {
    v.x >= 0 && v.y >= 0 && v.z >= 0
}

/// The background gradient: white at the horizon blending to sky blue
/// upward, weighted by the clamped vertical direction.
pub open spec fn background_s(dir: Vec3) -> Vec3 {
    let raw = crate::fixed::fx_div_s(
        crate::fixed::fx_add_s(dir.y as int, FX_ONE as int),
        FX_TWO as int,
    );
    let t = crate::fixed::max_s(0, crate::fixed::min_s(raw, FX_ONE as int));
    Vec3 {
        x: crate::fixed::fx_add_s(
            fx_mul_s(FX_ONE as int, FX_ONE as int - t),
            fx_mul_s(FX_HALF as int, t),
        ) as i64,
        y: crate::fixed::fx_add_s(
            fx_mul_s(FX_ONE as int, FX_ONE as int - t),
            fx_mul_s(FX_SKY_G as int, t),
        ) as i64,
        z: crate::fixed::fx_add_s(
            fx_mul_s(FX_ONE as int, FX_ONE as int - t),
            fx_mul_s(FX_ONE as int, t),
        ) as i64,
    }
}

proof fn lemma_background_nonneg(dir: Vec3)
    ensures
        all_nonneg(background_s(dir)),
{
    let raw = crate::fixed::fx_div_s(
        crate::fixed::fx_add_s(dir.y as int, FX_ONE as int),
        FX_TWO as int,
    );
    let t = crate::fixed::max_s(0, crate::fixed::min_s(raw, FX_ONE as int));
    lemma_fx_mul_nonneg(FX_ONE as int, FX_ONE as int - t);
    lemma_fx_mul_nonneg(FX_HALF as int, t);
    lemma_fx_mul_nonneg(FX_SKY_G as int, t);
    lemma_fx_mul_nonneg(FX_ONE as int, t);
}

fn background(dir: &Vec3) -> (c: Vec3)
    ensures
        c == background_s(*dir),
        all_nonneg(c),
{
    // the direction is unit length up to rounding; clamp the blend factor
    // into the unit interval so the gradient never dips below zero
    let raw = fx_div(fx_add(dir.y, FX_ONE), FX_TWO);
    let t = fx_max(0, fx_min(raw, FX_ONE));
    let one_minus = crate::fixed::fx_sub(FX_ONE, t);
    let c = Vec3 {
        x: fx_add(crate::fixed::fx_mul(FX_ONE, one_minus), crate::fixed::fx_mul(FX_HALF, t)),
        y: fx_add(crate::fixed::fx_mul(FX_ONE, one_minus), crate::fixed::fx_mul(FX_SKY_G, t)),
        z: fx_add(crate::fixed::fx_mul(FX_ONE, one_minus), crate::fixed::fx_mul(FX_ONE, t)),
    };
    proof {
        lemma_background_nonneg(*dir);
    }
    c
}

proof fn lemma_mul_ew_nonneg(a: Vec3, b: Vec3)
    requires
        all_nonneg(a),
        all_nonneg(b),
    ensures
        all_nonneg(crate::vec3::v3_mul_ew(a, b)),
{
    lemma_fx_mul_nonneg(a.x as int, b.x as int);
    lemma_fx_mul_nonneg(a.y as int, b.y as int);
    lemma_fx_mul_nonneg(a.z as int, b.z as int);
}

proof fn lemma_div_s_nonneg(a: Vec3, k: int)
    requires
        all_nonneg(a),
        k >= 0,
    ensures
        all_nonneg(crate::vec3::v3_div_s(a, k)),
{
    lemma_fx_div_nonneg(a.x as int, k);
    lemma_fx_div_nonneg(a.y as int, k);
    lemma_fx_div_nonneg(a.z as int, k);
}

/// Scaling a color by pure white changes nothing.
proof fn lemma_mul_ew_one(a: Vec3)
    ensures
        v3_mul_ew(a, v3_from_value(FX_ONE)) == a,
{
    lemma_fx_mul_one(a.x as int);
    lemma_fx_mul_one(a.y as int);
    lemma_fx_mul_one(a.z as int);
}

/// `h` is a real primitive hit of minimal distance along the ray.
pub open spec fn closest_hit_s(ps: Seq<ShapePrimitive>, r: Ray3f, h: SurfaceInteraction) -> bool {
    &&& exists|i: usize|
        (i as int) < ps.len() && #[trigger] prim_hit_s(ps[i as int], i, r) == Some(h)
    &&& forall|i: usize|
        (i as int) < ps.len() ==> (#[trigger] prim_hit_s(ps[i as int], i, r) is Some ==> h.t
            <= prim_hit_s(ps[i as int], i, r)->0.t)
}

/// The roulette survival probability for a throughput: its largest
/// component, capped.
pub open spec fn roulette_p_s(tp: Vec3) -> int {
    min_s(max_s(max_s(tp.x as int, tp.y as int), tp.z as int), FX_ROULETTE_CAP as int)
}

/// Every radiance value one traced path may return from the given state. A
/// path either escapes, returning the background times the throughput it
/// accumulated, or returns exactly zero: by material absorption, by a
/// roulette kill past the warm-up bounces, or at the bounce cap. Each bounce
/// goes through a closest scene hit and a scatter result that the hit
/// material admits for some random draw, multiplying the throughput by the
/// attenuation — and, on a surviving roulette draw, dividing it by the
/// survival probability.
pub open spec fn trace_outcome(
    ps: Seq<ShapePrimitive>,
    ray: Ray3f,
    tp: Vec3,
    bounces: int,
    max_bounces: int,
    c: Vec3,
) -> bool
    decreases max_bounces - bounces,
{
    if bounces >= max_bounces {
        c == v3_from_value(0)
    } else if brute_force_s(ps, ray) is None {
        c == v3_mul_ew(background_s(ray.direction), tp)
    } else {
        exists|hit: SurfaceInteraction, sr: Option<(Ray3f, Vec3)>|
            {
                &&& closest_hit_s(ps, ray, hit)
                &&& #[trigger] scatter_post(hit.material, ray, hit.point, hit.normal, sr)
                &&& match sr {
                    None => c == v3_from_value(0),
                    Some(sa) => {
                        let tp2 = v3_mul_ew(tp, sa.1);
                        if bounces > 3 {
                            c == v3_from_value(0) || trace_outcome(
                                ps,
                                sa.0,
                                v3_div_s(tp2, roulette_p_s(tp2)),
                                bounces + 1,
                                max_bounces,
                                c,
                            )
                        } else {
                            trace_outcome(ps, sa.0, tp2, bounces + 1, max_bounces, c)
                        }
                    },
                }
            }
    }
}

/// One bounce prepended to a continuation: a closest hit, a scatter result
/// the material admits and an outcome of the resulting state make an outcome
/// of the current state.
proof fn lemma_outcome_step(
    ps: Seq<ShapePrimitive>,
    ray: Ray3f,
    tp: Vec3,
    bounces: int,
    max_bounces: int,
    hit: SurfaceInteraction,
    sr: Option<(Ray3f, Vec3)>,
    c: Vec3,
)
    requires
        bounces < max_bounces,
        brute_force_s(ps, ray) is Some,
        closest_hit_s(ps, ray, hit),
        scatter_post(hit.material, ray, hit.point, hit.normal, sr),
        match sr {
            None => c == v3_from_value(0),
            Some(sa) => {
                let tp2 = v3_mul_ew(tp, sa.1);
                if bounces > 3 {
                    c == v3_from_value(0) || trace_outcome(
                        ps,
                        sa.0,
                        v3_div_s(tp2, roulette_p_s(tp2)),
                        bounces + 1,
                        max_bounces,
                        c,
                    )
                } else {
                    trace_outcome(ps, sa.0, tp2, bounces + 1, max_bounces, c)
                }
            },
        },
    ensures
        trace_outcome(ps, ray, tp, bounces, max_bounces, c),
{
    assert(scatter_post(hit.material, ray, hit.point, hit.normal, sr));
}

/// Trace one path through the scene: accumulate attenuation into the
/// throughput at every bounce, terminate by miss (background), absorption,
/// Russian roulette past the warm-up bounces, or the bounce cap. The result
/// is an outcome `trace_outcome` admits for the starting state; it is never
/// negative whatever the generator draws, and a primary ray that misses
/// everything returns exactly the background gradient.
pub fn color(r: &Ray3f, world: &Aggregate, max_bounces: usize, rng: &mut SmallRng) -> (c: Vec3)
    requires
        world.wf(),
        world.materials_wf(),
    ensures
        all_nonneg(c),
        trace_outcome(
            world.prims_s(),
            *r,
            v3_from_value(FX_ONE),
            0,
            max_bounces as int,
            c,
        ),
        max_bounces > 0 && brute_force_s(world.prims_s(), *r) is None ==> c == background_s(
            r.direction,
        ),
{
    let ghost ps = world.prims_s();
    let ghost mb = max_bounces as int;
    let mut ray = *r;
    let mut throughput = Vec3::from_value(FX_ONE);
    let mut bounces: usize = 0;
    while bounces < max_bounces
        invariant
            all_nonneg(throughput),
            world.wf(),
            world.materials_wf(),
            ps == world.prims_s(),
            mb == max_bounces as int,
            bounces == 0 ==> ray == *r && throughput == v3_from_value(FX_ONE),
            bounces > 0 ==> brute_force_s(ps, *r) is Some,
            forall|cv: Vec3|
                trace_outcome(ps, ray, throughput, bounces as int, mb, cv)
                    ==> #[trigger] trace_outcome(ps, *r, v3_from_value(FX_ONE), 0, mb, cv),
        decreases max_bounces - bounces,
    {
        match world.intersect(ray) {
            None => {
                let bg = background(&ray.direction);
                let out = bg.mul_ew(&throughput);
                proof {
                    lemma_mul_ew_nonneg(bg, throughput);
                    if bounces == 0 {
                        lemma_mul_ew_one(bg);
                    }
                    assert(trace_outcome(ps, ray, throughput, bounces as int, mb, out));
                    assert(trace_outcome(ps, *r, v3_from_value(FX_ONE), 0, mb, out));
                }
                return out;
            },
            Some(hit) => {
                match hit.material.scatter(ray, hit.point, hit.normal, rng) {
                    None => {
                        proof {
                            assert(closest_hit_s(ps, ray, hit));
                            lemma_outcome_step(
                                ps,
                                ray,
                                throughput,
                                bounces as int,
                                mb,
                                hit,
                                None,
                                v3_from_value(0),
                            );
                            assert(trace_outcome(
                                ps,
                                *r,
                                v3_from_value(FX_ONE),
                                0,
                                mb,
                                v3_from_value(0),
                            ));
                        }
                        return Vec3::zero();  // absorbed
                    },
                    Some((scattered, attenuation)) => {
                        proof {
                            let i = choose|i: usize|
                                (i as int) < ps.len() && #[trigger] prim_hit_s(
                                    ps[i as int],
                                    i,
                                    ray,
                                ) == Some(hit);
                            assert(hit.material == ps[i as int].material);
                            lemma_scatter_basic(
                                hit.material,
                                ray,
                                hit.point,
                                hit.normal,
                                Some((scattered, attenuation)),
                            );
                            lemma_mul_ew_nonneg(throughput, attenuation);
                            assert(closest_hit_s(ps, ray, hit));
                        }
                        let ghost old_ray = ray;
                        let ghost old_tp = throughput;
                        let ghost old_b = bounces as int;
                        let new_tp = throughput.mul_ew(&attenuation);
                        if bounces > 3 {
                            // russian roulette: survive with probability p,
                            // compensating survivors by 1/p
                            let p = fx_min(
                                fx_max(fx_max(new_tp.x, new_tp.y), new_tp.z),
                                FX_ROULETTE_CAP,
                            );
                            if crate::util::random(rng) > p {
                                proof {
                                    lemma_outcome_step(
                                        ps,
                                        old_ray,
                                        old_tp,
                                        old_b,
                                        mb,
                                        hit,
                                        Some((scattered, attenuation)),
                                        v3_from_value(0),
                                    );
                                    assert(trace_outcome(
                                        ps,
                                        *r,
                                        v3_from_value(FX_ONE),
                                        0,
                                        mb,
                                        v3_from_value(0),
                                    ));
                                }
                                return Vec3::zero();  // absorbed
                            }
                            proof {
                                lemma_div_s_nonneg(new_tp, p as int);
                                assert(p as int == roulette_p_s(v3_mul_ew(old_tp, attenuation)));
                            }
                            throughput = new_tp.div_s(p);
                        } else {
                            throughput = new_tp;
                        }
                        ray = scattered;
                        bounces = bounces + 1;
                        proof {
                            assert forall|cv: Vec3|
                                trace_outcome(
                                    ps,
                                    ray,
                                    throughput,
                                    bounces as int,
                                    mb,
                                    cv,
                                ) implies #[trigger] trace_outcome(
                                ps,
                                *r,
                                v3_from_value(FX_ONE),
                                0,
                                mb,
                                cv,
                            ) by {
                                lemma_outcome_step(
                                    ps,
                                    old_ray,
                                    old_tp,
                                    old_b,
                                    mb,
                                    hit,
                                    Some((scattered, attenuation)),
                                    cv,
                                );
                                assert(trace_outcome(ps, old_ray, old_tp, old_b, mb, cv));
                            }
                        }
                    },
                }
            },
        }
    }
    proof {
        assert(trace_outcome(ps, ray, throughput, bounces as int, mb, v3_from_value(0)));
        assert(trace_outcome(ps, *r, v3_from_value(FX_ONE), 0, mb, v3_from_value(0)));
    }
    Vec3::zero()
}

/// Gamma correction: the element-wise square root applied to a sample
/// before accumulation.
pub open spec fn gamma_s(c: Vec3) -> Vec3 {
    Vec3 {
        x: fx_sqrt_s(c.x as int) as i64,
        y: fx_sqrt_s(c.y as int) as i64,
        z: fx_sqrt_s(c.z as int) as i64,
    }
}

pub fn gamma(c: &Vec3) -> (r: Vec3)
    ensures
        r == gamma_s(*c),
        all_nonneg(r),
{
    let r = Vec3 { x: fx_sqrt(c.x), y: fx_sqrt(c.y), z: fx_sqrt(c.z) };
    proof {
        crate::fixed::lemma_sqrt_floor_bounds(0);
        if c.x > 0 {
            crate::fixed::lemma_sqrt_floor_bounds((c.x as int) * (FX_ONE as int));
        }
        if c.y > 0 {
            crate::fixed::lemma_sqrt_floor_bounds((c.y as int) * (FX_ONE as int));
        }
        if c.z > 0 {
            crate::fixed::lemma_sqrt_floor_bounds((c.z as int) * (FX_ONE as int));
        }
    }
    r
}

} // verus!
