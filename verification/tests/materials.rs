use rays::fixed::{FX_HALF, FX_ONE, FX_TWO};
use rays::geom::Ray3f;
use rays::material::{Dielectric, Lambertian, Material, Metal};
use rays::util::new_random;
use rays::vec3::Vec3;

fn v(x: i64, y: i64, z: i64) -> Vec3 {
    Vec3::new(x, y, z)
}

const FX_GLASS: i64 = 6442450944; // 1.5

#[test]
fn lambertian_always_scatters_from_the_hit_point() {
    let mut rng = new_random(7);
    let m = Lambertian { albedo: v(FX_HALF, FX_HALF / 2, FX_ONE / 10) };
    let r = Ray3f::new(v(0, 0, 0), v(0, 0, -FX_ONE));
    for _ in 0..50 {
        let point = v(0, 0, -FX_ONE);
        let normal = v(0, 0, FX_ONE);
        let (scattered, attenuation) = m.scatter(r, point, normal, &mut rng).expect(
            "diffuse never absorbs",
        );
        assert_eq!(scattered.origin, point);
        assert_eq!(attenuation, m.albedo);
        // scattered direction stays in the hemisphere of the normal
        assert!(scattered.direction.dot(&normal) > -FX_ONE / 100);
    }
}

#[test]
fn metal_with_zero_fuzz_reflects_exactly() {
    let mut rng = new_random(11);
    let m = Metal { albedo: v(FX_HALF, FX_HALF, FX_HALF), fuzz: 0 };
    // a 45-degree incidence on the ground plane
    let r = Ray3f::new(v(-FX_ONE, FX_ONE, 0), v(FX_ONE, -FX_ONE, 0));
    let point = v(0, 0, 0);
    let normal = v(0, FX_ONE, 0);
    let (first, _) = m.scatter(r, point, normal, &mut rng).expect("mirror reflects");
    // zero variance: every repeated call gives the very same ray
    for _ in 0..50 {
        let (again, _) = m.scatter(r, point, normal, &mut rng).expect("mirror reflects");
        assert_eq!(again.direction, first.direction);
        assert_eq!(again.origin, first.origin);
    }
    // and it is the mirror image: incoming (1,-1,0)/sqrt(2) goes out (1,1,0)/sqrt(2)
    assert!(first.direction.x > 0 && first.direction.y > 0);
    assert!((first.direction.x - first.direction.y).abs() <= 2);
    assert!(first.direction.z == 0);
}

#[test]
fn metal_absorbs_rays_bent_into_the_surface() {
    let mut rng = new_random(13);
    // strong fuzz and grazing incidence: at least some draws must be
    // absorbed, and the accepted ones stay above the surface
    let m = Metal { albedo: v(FX_HALF, FX_HALF, FX_HALF), fuzz: FX_ONE };
    let r = Ray3f::new(v(-100 * FX_ONE, FX_ONE / 50, 0), v(100 * FX_ONE, -FX_ONE / 50, 0));
    let normal = v(0, FX_ONE, 0);
    let mut absorbed = 0;
    for _ in 0..200 {
        match m.scatter(r, v(0, 0, 0), normal, &mut rng) {
            None => absorbed += 1,
            Some((scattered, _)) => assert!(scattered.direction.dot(&normal) > 0),
        }
    }
    assert!(absorbed > 0, "grazing fuzzy reflection never absorbed anything");
}

#[test]
fn dielectric_normal_incidence_refracts_straight_through() {
    let mut rng = new_random(17);
    let m = Dielectric { ref_index: FX_GLASS };
    // entering along the normal: Snell gives a zero refraction angle
    let r = Ray3f::new(v(0, 0, FX_ONE), v(0, 0, -FX_ONE));
    let point = v(0, 0, 0);
    let normal = v(0, 0, FX_ONE);
    let mut refracted = 0;
    let mut reflected = 0;
    for _ in 0..400 {
        let (scattered, attenuation) = m.scatter(r, point, normal, &mut rng).expect(
            "glass never absorbs",
        );
        assert_eq!(attenuation, v(FX_ONE, FX_ONE, FX_ONE));
        if scattered.direction.z < 0 {
            // transmitted: the direction must still be straight down the axis
            assert!(scattered.direction.x.abs() < FX_ONE / 1000);
            assert!(scattered.direction.y.abs() < FX_ONE / 1000);
            assert!((scattered.direction.z + FX_ONE).abs() < FX_ONE / 1000);
            refracted += 1;
        } else {
            reflected += 1;
        }
    }
    // Schlick reflectance at normal incidence for 1.5 is four percent:
    // transmission must dominate
    assert!(refracted > reflected * 5, "refracted {refracted}, reflected {reflected}");
}

#[test]
fn dielectric_exiting_ray_flips_the_geometry() {
    let mut rng = new_random(19);
    let m = Dielectric { ref_index: FX_GLASS };
    // leaving the medium along the normal
    let r = Ray3f::new(v(0, 0, -FX_ONE), v(0, 0, FX_ONE));
    let normal = v(0, 0, FX_ONE);
    for _ in 0..50 {
        let (scattered, _) = m.scatter(r, v(0, 0, 0), normal, &mut rng).expect(
            "glass never absorbs",
        );
        // straight out or reflected straight back, never sideways
        assert!(scattered.direction.x.abs() < FX_ONE / 1000);
        assert!(scattered.direction.y.abs() < FX_ONE / 1000);
    }
}

#[test]
fn material_enum_dispatches_to_variants() {
    let mut rng = new_random(23);
    let r = Ray3f::new(v(0, 0, 0), v(0, 0, -FX_ONE));
    let point = v(0, 0, -FX_ONE);
    let normal = v(0, 0, FX_ONE);
    let lam = Material::Lambertian(Lambertian { albedo: v(FX_HALF, FX_HALF, FX_HALF) });
    assert!(lam.scatter(r, point, normal, &mut rng).is_some());
    let glass = Material::Dielectric(Dielectric { ref_index: FX_GLASS });
    let (_, att) = glass.scatter(r, point, normal, &mut rng).unwrap();
    assert_eq!(att, v(FX_ONE, FX_ONE, FX_ONE));
    let mirror = Material::Metal(Metal { albedo: v(FX_ONE, FX_ONE, FX_TWO / 4), fuzz: 0 });
    let (s, _) = mirror.scatter(r, point, normal, &mut rng).unwrap();
    assert!(s.direction.z > 0);
}
