//! The demo scene: a ground sphere, three feature spheres and a grid of
//! small randomized ones, every material well formed by construction.

use vstd::prelude::*;

use crate::aggregate::Aggregate;
use crate::fixed::{
    fx_add, fx_div, fx_mul, fx_sqrt_s, lemma_fx_div_nonneg, lemma_fx_mul_nonneg, FX_HALF, FX_ONE,
    FX_TWO,
};
use crate::material::{material_wf, Dielectric, Lambertian, Material, Metal};
use crate::prims::ShapePrimitive;
use crate::shape::{shape_bbox_s, Shape, Sphere};
use crate::util::{new_random, random};
use crate::vec3::{v3_mag2, v3_sub, Vec3};

verus! {

/// Raw fixed-point value of 1000, the ground sphere's radius.
pub const FX_GROUND: i64 = 4294967296000;

/// Raw fixed-point value of 0.2, the small spheres' radius.
pub const FX_SMALL: i64 = 858993459;

/// Raw fixed-point value of 0.9, the grid jitter scale.
pub const FX_JITTER: i64 = 3865470566;

/// Raw fixed-point value of 0.8, the diffuse material share.
pub const FX_DIFFUSE_P: i64 = 3435973836;

/// Raw fixed-point value of 0.95, the metal material share's upper bound.
pub const FX_METAL_P: i64 = 4080218931;

/// Raw fixed-point value of 1.5, the glass refraction index.
pub const FX_GLASS: i64 = 6442450944;

/// Raw fixed-point value of 4.
pub const FX_FOUR: i64 = 17179869184;

/// All pushed primitives carry a box and a well-formed material.
spec fn scene_inv(prims: Seq<ShapePrimitive>) -> bool {
    forall|k: int|
        0 <= k < prims.len() ==> (#[trigger] prims[k]).aabb is Some && material_wf(
            prims[k].material,
        )
}

/// The primitive a shape and a material build: its box is precomputed.
pub open spec fn prim_of_s(shape: Shape, material: Material) -> ShapePrimitive {
    ShapePrimitive { shape, material, aabb: shape_bbox_s(shape) }
}

/// The four fixed feature spheres of the cover scene, in push order: the
/// ground, the glass sphere, the matte sphere and the mirror.
pub open spec fn cover_fixed_prims_s() -> Seq<ShapePrimitive> {
    seq![
        prim_of_s(
            Shape::Sphere(Sphere { center: Vec3 { x: 0, y: (-FX_GROUND) as i64, z: 0 }, radius: FX_GROUND }),
            Material::Lambertian(Lambertian { albedo: Vec3 { x: FX_HALF, y: FX_HALF, z: FX_HALF } }),
        ),
        prim_of_s(
            Shape::Sphere(Sphere { center: Vec3 { x: 0, y: FX_ONE, z: 0 }, radius: FX_ONE }),
            Material::Dielectric(Dielectric { ref_index: FX_GLASS }),
        ),
        prim_of_s(
            Shape::Sphere(Sphere { center: Vec3 { x: (-FX_FOUR) as i64, y: FX_ONE, z: 0 }, radius: FX_ONE }),
            Material::Lambertian(Lambertian { albedo: Vec3 { x: 1717986918, y: 858993459, z: 429496729 } }),
        ),
        prim_of_s(
            Shape::Sphere(Sphere { center: Vec3 { x: FX_FOUR, y: FX_ONE, z: 0 }, radius: FX_ONE }),
            Material::Metal(Metal { albedo: Vec3 { x: 3006477107, y: 2576980377, z: 2147483648 }, fuzz: 0 }),
        ),
    ]
}

/// A small grid sphere: its radius is the fixed small one, and its center
/// stands clear of the mirror sphere's surroundings.
pub open spec fn small_sphere_ok(p: ShapePrimitive) -> bool {
    &&& p.shape is Sphere
    &&& p.shape->Sphere_0.radius == FX_SMALL
    &&& fx_sqrt_s(
        v3_mag2(v3_sub(p.shape->Sphere_0.center, Vec3 { x: FX_FOUR, y: 0, z: FX_TWO })),
    ) > FX_JITTER as int
}

fn push_prim(prims: &mut Vec<ShapePrimitive>, shape: Shape, material: Material)
    requires
        scene_inv(old(prims)@),
        material_wf(material),
    ensures
        scene_inv(final(prims)@),
        final(prims)@.len() == old(prims)@.len() + 1,
        final(prims)@ == old(prims)@.push(prim_of_s(shape, material)),
{
    let ghost pre = prims@;
    let p = ShapePrimitive::new(shape, material);
    prims.push(p);
    proof {
        assert(p == prim_of_s(shape, material));
        assert forall|k: int|
            0 <= k < prims@.len() implies (#[trigger] prims@[k]).aabb is Some && material_wf(
            prims@[k].material,
        ) by {
            if k < pre.len() {
                assert(prims@[k] == pre[k]);
            }
        }
    }
}

/// Build the cover scene over a deterministic generator seed: the four
/// fixed feature spheres first, then a jittered grid of small spheres with
/// randomized materials.
pub fn new_cover_scene() -> (scene: Aggregate)
    ensures
        scene.wf(),
        scene.materials_wf(),
        scene.prims_s().len() >= 4,
        forall|j: int| 0 <= j < 4 ==> scene.prims_s()[j] == cover_fixed_prims_s()[j],
        forall|j: int|
            4 <= j < scene.prims_s().len() ==> small_sphere_ok(#[trigger] scene.prims_s()[j]),
{
    let mut rng = new_random(0);
    let mut prims: Vec<ShapePrimitive> = Vec::new();
    push_prim(
        &mut prims,
        Shape::Sphere(Sphere { center: Vec3::new(0, -FX_GROUND, 0), radius: FX_GROUND }),
        Material::Lambertian(Lambertian { albedo: Vec3::new(FX_HALF, FX_HALF, FX_HALF) }),
    );
    push_prim(
        &mut prims,
        Shape::Sphere(Sphere { center: Vec3::new(0, FX_ONE, 0), radius: FX_ONE }),
        Material::Dielectric(Dielectric { ref_index: FX_GLASS }),
    );
    push_prim(
        &mut prims,
        Shape::Sphere(Sphere { center: Vec3::new(-FX_FOUR, FX_ONE, 0), radius: FX_ONE }),
        Material::Lambertian(
            Lambertian { albedo: Vec3::new(1717986918, 858993459, 429496729) },
        ),
    );
    push_prim(
        &mut prims,
        Shape::Sphere(Sphere { center: Vec3::new(FX_FOUR, FX_ONE, 0), radius: FX_ONE }),
        Material::Metal(
            Metal { albedo: Vec3::new(3006477107, 2576980377, 2147483648), fuzz: 0 },
        ),
    );
    proof {
        assert(prims@[0] == cover_fixed_prims_s()[0]);
        assert(prims@[1] == cover_fixed_prims_s()[1]);
        assert(prims@[2] == cover_fixed_prims_s()[2]);
        assert(prims@[3] == cover_fixed_prims_s()[3]);
    }
    let mut a: i64 = -11;
    while a < 11
        invariant
            -11 <= a <= 11,
            scene_inv(prims@),
            prims@.len() >= 4,
            forall|j: int| 0 <= j < 4 ==> prims@[j] == cover_fixed_prims_s()[j],
            forall|j: int| 4 <= j < prims@.len() ==> small_sphere_ok(#[trigger] prims@[j]),
        decreases 11 - a,
    {
        let mut b: i64 = -11;
        while b < 11
            invariant
                -11 <= a < 11,
                -11 <= b <= 11,
                scene_inv(prims@),
                prims@.len() >= 4,
                forall|j: int| 0 <= j < 4 ==> prims@[j] == cover_fixed_prims_s()[j],
                forall|j: int| 4 <= j < prims@.len() ==> small_sphere_ok(#[trigger] prims@[j]),
            decreases 11 - b,
        {
            let center = Vec3::new(
                fx_add(a * FX_ONE, fx_mul(FX_JITTER, random(&mut rng))),
                FX_SMALL,
                fx_add(b * FX_ONE, fx_mul(FX_JITTER, random(&mut rng))),
            );
            let near_feature = center.sub(
                &Vec3::new(FX_FOUR, 0, FX_TWO),
            ).mag() <= FX_JITTER;
            if !near_feature {
                let mat = random(&mut rng);
                if mat < FX_DIFFUSE_P {
                    let r0 = random(&mut rng);
                    let r1 = random(&mut rng);
                    let r2 = random(&mut rng);
                    let r3 = random(&mut rng);
                    let r4 = random(&mut rng);
                    let r5 = random(&mut rng);
                    let albedo = Vec3::new(fx_mul(r0, r1), fx_mul(r2, r3), fx_mul(r4, r5));
                    proof {
                        lemma_fx_mul_nonneg(r0 as int, r1 as int);
                        lemma_fx_mul_nonneg(r2 as int, r3 as int);
                        lemma_fx_mul_nonneg(r4 as int, r5 as int);
                    }
                    push_prim(
                        &mut prims,
                        Shape::Sphere(Sphere { center, radius: FX_SMALL }),
                        Material::Lambertian(Lambertian { albedo }),
                    );
                } else if mat < FX_METAL_P {
                    let s0 = fx_add(random(&mut rng), FX_ONE);
                    let s1 = fx_add(random(&mut rng), FX_ONE);
                    let s2 = fx_add(random(&mut rng), FX_ONE);
                    let g0 = fx_div(s0, FX_TWO);
                    let g1 = fx_div(s1, FX_TWO);
                    let g2 = fx_div(s2, FX_TWO);
                    let fr = random(&mut rng);
                    let fuzz = fx_mul(FX_HALF, fr);
                    proof {
                        lemma_fx_div_nonneg(s0 as int, FX_TWO as int);
                        lemma_fx_div_nonneg(s1 as int, FX_TWO as int);
                        lemma_fx_div_nonneg(s2 as int, FX_TWO as int);
                        lemma_fx_mul_nonneg(FX_HALF as int, fr as int);
                    }
                    push_prim(
                        &mut prims,
                        Shape::Sphere(Sphere { center, radius: FX_SMALL }),
                        Material::Metal(Metal { albedo: Vec3::new(g0, g1, g2), fuzz }),
                    );
                } else {
                    push_prim(
                        &mut prims,
                        Shape::Sphere(Sphere { center, radius: FX_SMALL }),
                        Material::Dielectric(Dielectric { ref_index: FX_GLASS }),
                    );
                }
            }
            b = b + 1;
        }
        a = a + 1;
    }
    let ghost pseq = prims@;
    let scene = Aggregate::new(prims);
    proof {
        assert forall|k: int|
            0 <= k < scene.prims_s().len() implies material_wf(
            (#[trigger] scene.prims_s()[k]).material,
        ) by {
            assert(scene.prims_s()[k] == pseq[k]);
        }
        assert forall|j: int| 0 <= j < 4 implies scene.prims_s()[j] == cover_fixed_prims_s()[j] by {
            assert(scene.prims_s()[j] == pseq[j]);
        }
        assert forall|j: int|
            4 <= j < scene.prims_s().len() implies small_sphere_ok(
            #[trigger] scene.prims_s()[j],
        ) by {
            assert(scene.prims_s()[j] == pseq[j]);
        }
    }
    scene
}

} // verus!
