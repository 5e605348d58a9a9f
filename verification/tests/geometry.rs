use rays::fixed::{FX_HALF, FX_ONE, FX_TWO};
use rays::geom::Ray3f;
use rays::material::{Lambertian, Material};
use rays::prims::ShapePrimitive;
use rays::shape::{Shape, Sphere, AABB};
use rays::vec3::Vec3;

fn v(x: i64, y: i64, z: i64) -> Vec3 {
    Vec3::new(x, y, z)
}

#[test]
fn union_is_commutative_associative_idempotent() {
    let a = AABB::new(v(-FX_ONE, 0, 0), v(FX_ONE, FX_TWO, FX_ONE));
    let b = AABB::new(v(0, -FX_ONE, -FX_ONE), v(FX_TWO, FX_ONE, 0));
    let c = AABB::new(v(-FX_TWO, -FX_TWO, -FX_TWO), v(-FX_ONE, -FX_ONE, -FX_ONE));
    assert_eq!(a.union(&b), b.union(&a));
    assert_eq!(a.union(&b).union(&c), a.union(&b.union(&c)));
    assert_eq!(a.union(&a), a);
}

#[test]
fn union_with_empty_is_identity() {
    let a = AABB::new(v(-FX_ONE, 0, 0), v(FX_ONE, FX_TWO, FX_ONE));
    assert_eq!(AABB::empty().union(&a), a);
    assert_eq!(a.union(&AABB::empty()), a);
}

#[test]
fn empty_box_never_intersects() {
    let r = Ray3f::new(v(0, 0, 0), v(0, 0, -FX_ONE));
    assert!(!AABB::empty().intersect(r));
}

#[test]
fn slab_test_hits_and_misses() {
    let b = AABB::new(v(-FX_ONE, -FX_ONE, -3 * FX_ONE), v(FX_ONE, FX_ONE, -FX_ONE));
    // straight into the box
    assert!(b.intersect(Ray3f::new(v(0, 0, 0), v(0, 0, -FX_ONE))));
    // straight away from the box
    assert!(!b.intersect(Ray3f::new(v(0, 0, 0), v(0, 0, FX_ONE))));
    // sideways, parallel to the box but displaced
    assert!(!b.intersect(Ray3f::new(v(4 * FX_ONE, 0, 0), v(0, 0, -FX_ONE))));
    // diagonal through a corner region
    assert!(b.intersect(Ray3f::new(v(0, 0, 0), v(FX_HALF / 2, FX_HALF / 2, -FX_TWO))));
}

#[test]
fn box_geometry_values() {
    let b = AABB::new(v(0, 0, 0), v(FX_ONE, FX_TWO, 3 * FX_ONE));
    assert_eq!(b.diagonal(), v(FX_ONE, FX_TWO, 3 * FX_ONE));
    // area = 2 * (1*2 + 2*3 + 1*3) = 22
    assert_eq!(b.surface_area(), 22 * FX_ONE);
    assert_eq!(b.center(), v(FX_HALF, FX_ONE, FX_ONE + FX_HALF));
    // offset of the center point is one half along each axis
    let off = b.offset_p(&b.center());
    assert!((off.x - FX_HALF).abs() <= 2);
    assert!((off.y - FX_HALF).abs() <= 2);
    assert!((off.z - FX_HALF).abs() <= 2);
}

#[test]
fn sphere_hit_point_lies_on_surface() {
    let s = Sphere { center: v(0, 0, -FX_ONE), radius: FX_HALF };
    let r = Ray3f::new(v(0, 0, 0), v(0, 0, -FX_ONE));
    let (p, n) = s.intersect(r).expect("head-on ray must hit");
    // the hit point is on the surface: |p - center| == |radius| up to rounding
    let d = p.sub(&s.center).mag();
    assert!((d - FX_HALF).abs() < FX_ONE / 10000, "distance raw {d}");
    // the outward normal is unit length and points back at the ray
    assert!((n.mag() - FX_ONE).abs() < FX_ONE / 10000);
    assert!(n.z > 0);
    // oblique hit, still on the surface
    let r2 = Ray3f::new(v(0, 0, 0), v(FX_ONE / 4, 0, -FX_ONE));
    let (p2, _) = s.intersect(r2).expect("oblique ray must hit");
    let d2 = p2.sub(&s.center).mag();
    assert!((d2 - FX_HALF).abs() < FX_ONE / 5000, "distance raw {d2}");
}

#[test]
fn sphere_missed_returns_none() {
    let s = Sphere { center: v(0, 0, -FX_TWO), radius: FX_HALF };
    // perpendicular distance from center to the ray line is 1 > 0.5
    assert!(s.intersect(Ray3f::new(v(FX_ONE, 0, 0), v(0, 0, -FX_ONE))).is_none());
    // heading away from the sphere entirely
    assert!(s.intersect(Ray3f::new(v(0, 0, 0), v(0, 0, FX_ONE))).is_none());
}

#[test]
fn sphere_entered_from_inside_exits() {
    let s = Sphere { center: v(0, 0, 0), radius: FX_TWO };
    let (p, _) = s.intersect(Ray3f::new(v(0, 0, 0), v(0, 0, -FX_ONE))).expect(
        "a ray from the center must exit",
    );
    assert!((p.z + FX_TWO).abs() < FX_ONE / 10000, "exit at far root, got {}", p.z);
}

#[test]
fn negative_radius_flips_the_normal() {
    let s = Sphere { center: v(0, 0, -FX_ONE), radius: -FX_HALF };
    let r = Ray3f::new(v(0, 0, 0), v(0, 0, -FX_ONE));
    let (_, n) = s.intersect(r).expect("hollow shell still intersects");
    assert!(n.z < 0, "normal flipped inward for negative radius");
}

#[test]
fn hollow_sphere_box_uses_the_radius_magnitude() {
    let s = Sphere { center: v(0, 0, -FX_ONE), radius: -FX_HALF };
    let b = s.bounding_box().unwrap();
    assert_eq!(b.min, v(-FX_HALF, -FX_HALF, -FX_ONE - FX_HALF));
    assert_eq!(b.max, v(FX_HALF, FX_HALF, -FX_ONE + FX_HALF));
    assert!(b.min.x <= b.max.x && b.min.y <= b.max.y && b.min.z <= b.max.z);
    // a hollow shell wrapped in a primitive is still hit through its box
    let prim = ShapePrimitive::new(
        Shape::Sphere(s),
        Material::Lambertian(Lambertian { albedo: v(FX_HALF, FX_HALF, FX_HALF) }),
    );
    let r = Ray3f::new(v(0, 0, 0), v(0, 0, -FX_ONE));
    assert!(prim.intersect(0, r).is_some());
}

#[test]
fn primitive_box_miss_skips_the_shape() {
    // a primitive whose recorded box is far from the sphere: a ray that
    // would hit the sphere but misses the box must be rejected by the box
    // test alone
    let sphere = Sphere { center: v(0, 0, -FX_TWO), radius: FX_ONE };
    let honest = ShapePrimitive::new(
        Shape::Sphere(sphere),
        Material::Lambertian(Lambertian { albedo: v(FX_HALF, FX_HALF, FX_HALF) }),
    );
    let r = Ray3f::new(v(0, 0, 0), v(0, 0, -FX_ONE));
    assert!(honest.intersect(0, r).is_some());
    let decoy = ShapePrimitive {
        shape: honest.shape,
        material: honest.material,
        aabb: Some(AABB::new(
            v(100 * FX_ONE, 100 * FX_ONE, 100 * FX_ONE),
            v(101 * FX_ONE, 101 * FX_ONE, 101 * FX_ONE),
        )),
    };
    assert!(decoy.intersect(0, r).is_none());
}

#[test]
fn primitive_records_distance_along_ray() {
    let prim = ShapePrimitive::new(
        Shape::Sphere(Sphere { center: v(0, 0, -FX_TWO), radius: FX_ONE }),
        Material::Lambertian(Lambertian { albedo: v(FX_HALF, FX_HALF, FX_HALF) }),
    );
    let hit = prim.intersect(7, Ray3f::new(v(0, 0, 0), v(0, 0, -FX_ONE))).unwrap();
    assert_eq!(hit.prim, 7);
    assert!((hit.t - FX_ONE).abs() < FX_ONE / 10000, "front face at distance 1, got {}", hit.t);
}
