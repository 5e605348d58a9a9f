use rays::aggregate::Aggregate;
use rays::camera::Camera;
use rays::fixed::{FX_HALF, FX_ONE, FX_TWO};
use rays::framebuf::FrameBuf;
use rays::geom::Ray3f;
use rays::integrator::{color, gamma, FX_SKY_G};
use rays::material::{Lambertian, Material, Metal};
use rays::prims::ShapePrimitive;
use rays::scene::new_cover_scene;
use rays::shape::{Shape, Sphere};
use rays::util::{new_random, random, random_in_unit_sphere, shuffle, stratified_samples};
use rays::vec3::{Vec2, Vec3};

fn v(x: i64, y: i64, z: i64) -> Vec3 {
    Vec3::new(x, y, z)
}

fn sphere_prim(cx: i64, cy: i64, cz: i64, radius: i64, albedo: Vec3) -> ShapePrimitive {
    ShapePrimitive::new(
        Shape::Sphere(Sphere { center: v(cx, cy, cz), radius }),
        Material::Lambertian(Lambertian { albedo }),
    )
}

#[test]
fn round_trip_compression_decompression() {
    let scene = new_cover_scene();
    let bb = scene.bounding_box();
    assert!(bb.is_some());
}

#[test]
fn bvh_matches_brute_force_on_a_random_scene() {
    let mut rng = new_random(31);
    let gray = v(FX_HALF, FX_HALF, FX_HALF);
    let mut prims = Vec::new();
    for _ in 0..60 {
        let cx = (random(&mut rng) - FX_HALF) * 16;
        let cy = (random(&mut rng) - FX_HALF) * 16;
        let cz = (random(&mut rng) - FX_HALF) * 16 - 8 * FX_ONE;
        prims.push(sphere_prim(cx, cy, cz, FX_HALF, gray));
    }
    let reference = prims.clone();
    let agg = Aggregate::new(prims);
    for k in 0..200 {
        let dir = random_in_unit_sphere(&mut rng);
        let dir = if dir.mag2() == 0 { v(0, 0, -FX_ONE) } else { dir };
        let ray = Ray3f::new(v(0, 0, 0), dir);
        let fast = agg.intersect(ray);
        let mut slow = None;
        for (i, p) in reference.iter().enumerate() {
            match (slow, p.intersect(i, ray)) {
                (None, h) => slow = h,
                (Some(_), None) => {},
                (Some(b), Some(h)) => {
                    slow = Some(if b.t < h.t { b } else { h });
                },
            }
        }
        match (fast, slow) {
            (None, None) => {},
            (Some(f), Some(s)) => assert_eq!(f.t, s.t, "distance mismatch on ray {k}"),
            (f, s) => panic!("hit/miss mismatch on ray {k}: {:?} vs {:?}", f.is_some(), s.is_some()),
        }
    }
}

#[test]
fn bvh_matches_brute_force_on_coincident_centroids() {
    let mut rng = new_random(37);
    let gray = v(FX_HALF, FX_HALF, FX_HALF);
    // every centroid coincides: the split heuristic must fall back to a
    // leaf without losing any primitive
    let mut prims = Vec::new();
    for _ in 0..12 {
        prims.push(sphere_prim(0, 0, -4 * FX_ONE, FX_ONE, gray));
    }
    // and a few concentric shells of different radii
    for k in 1..6i64 {
        prims.push(sphere_prim(0, 0, -4 * FX_ONE, k * FX_ONE / 4, gray));
    }
    let reference = prims.clone();
    let agg = Aggregate::new(prims);
    for _ in 0..100 {
        let dir = random_in_unit_sphere(&mut rng);
        let dir = if dir.mag2() == 0 { v(0, 0, -FX_ONE) } else { dir };
        let ray = Ray3f::new(v(0, 0, 0), dir);
        let fast = agg.intersect(ray);
        let mut slow = None;
        for (i, p) in reference.iter().enumerate() {
            match (slow, p.intersect(i, ray)) {
                (None, h) => slow = h,
                (Some(_), None) => {},
                (Some(b), Some(h)) => {
                    slow = Some(if b.t < h.t { b } else { h });
                },
            }
        }
        match (fast, slow) {
            (None, None) => {},
            (Some(f), Some(s)) => assert_eq!(f.t, s.t),
            (f, s) => panic!("hit/miss mismatch: {:?} vs {:?}", f.is_some(), s.is_some()),
        }
    }
}

#[test]
fn camera_zero_aperture_shares_one_origin() {
    let cam = Camera::new(
        v(0, 0, 0),
        v(0, 0, -FX_ONE),
        v(0, FX_ONE, 0),
        90 * FX_ONE,
        0,
        FX_ONE,
        64,
        40,
    );
    let mut rng = new_random(41);
    let rays = cam.get_rays(16, 13, 7, &mut rng);
    assert_eq!(rays.len(), 16);
    for (ray, off) in &rays {
        assert_eq!(ray.origin, v(0, 0, 0));
        assert!(0 <= off.x && off.x < FX_ONE);
        assert!(0 <= off.y && off.y < FX_ONE);
    }
}

#[test]
fn camera_positive_aperture_scatters_origins_inside_the_lens_disk() {
    let aperture = FX_ONE / 5;
    let cam = Camera::new(
        v(0, 0, 0),
        v(0, 0, -FX_ONE),
        v(0, FX_ONE, 0),
        90 * FX_ONE,
        aperture,
        FX_ONE,
        64,
        40,
    );
    let lens_radius = aperture / 2;
    let mut rng = new_random(43);
    let rays = cam.get_rays(64, 3, 3, &mut rng);
    let mut moved = 0;
    for (ray, _) in &rays {
        let d = ray.origin.sub(&v(0, 0, 0));
        // within the lens disk, with a little slack for the basis rounding
        assert!(d.mag() <= lens_radius + lens_radius / 8, "origin left the lens disk");
        if d.mag2() > 0 {
            moved += 1;
        }
    }
    assert!(moved > 32, "a positive aperture must actually displace origins");
}

#[test]
fn background_gradient_is_exact_at_the_poles() {
    // a scene far away from the probe rays
    let agg = Aggregate::new(vec![sphere_prim(
        1000 * FX_ONE,
        0,
        0,
        FX_ONE,
        v(FX_HALF, FX_HALF, FX_HALF),
    )]);
    let mut rng = new_random(47);
    // straight up: the pure sky color
    let up = color(&Ray3f::new(v(0, 0, 0), v(0, FX_ONE, 0)), &agg, 50, &mut rng);
    assert_eq!(up, v(FX_HALF, FX_SKY_G, FX_ONE));
    // straight down: pure white
    let down = color(&Ray3f::new(v(0, 0, 0), v(0, -FX_ONE, 0)), &agg, 50, &mut rng);
    assert_eq!(down, v(FX_ONE, FX_ONE, FX_ONE));
}

#[test]
fn gamma_is_the_elementwise_square_root() {
    let g = gamma(&v(FX_ONE / 4, FX_ONE, 0));
    assert_eq!(g, v(FX_HALF, FX_ONE, 0));
}

#[test]
fn end_to_end_small_render_stays_in_band() {
    // single sphere plus ground sphere, camera at the origin looking down
    // the negative z axis
    let albedo = v(3435973836, 1288490188, 1288490188); // (0.8, 0.3, 0.3)
    let prims = vec![
        sphere_prim(0, 0, -FX_ONE, FX_HALF, albedo),
        sphere_prim(0, -431638265856, -FX_ONE, 429496729600, albedo), // y = -100.5, r = 100
    ];
    let world = Aggregate::new(prims);
    let cam = Camera::new(
        v(0, 0, 0),
        v(0, 0, -FX_ONE),
        v(0, FX_ONE, 0),
        90 * FX_ONE,
        0,
        FX_ONE,
        16,
        10,
    );
    let mut fb = FrameBuf::new(16, 10);
    let mut rng = new_random(53);
    for (px, py) in fb.enum_pixels() {
        for (ray, off) in cam.get_rays(100, px, py, &mut rng) {
            let sample = color(&ray, &world, 50, &mut rng);
            fb.add_sample(px, py, off, gamma(&sample));
        }
    }
    let buf = fb.to_rgb();
    assert_eq!(buf.len(), 16 * 10 * 3);
    let mut sum: i128 = 0;
    for c in &buf {
        assert!(*c >= 0, "negative channel value {c}");
        sum += *c as i128;
    }
    let mean = (sum / buf.len() as i128) as i64;
    // empirical luminance band for this scene and sampling rate
    let lo = FX_ONE / 4;
    let hi = FX_ONE;
    assert!(lo < mean && mean < hi, "mean luminance raw {mean} outside [{lo}, {hi}]");
}

#[test]
fn roulette_termination_matches_a_truncated_reference() {
    // with albedo 0.3 the radiance carried past four bounces is below a
    // third of a percent, so a four-bounce tracer is a converged reference;
    // roulette only ever fires from the fifth bounce on, so the two runs
    // differ exactly by the roulette policy
    let albedo = v(1288490188, 1288490188, 1288490188); // (0.3, 0.3, 0.3)
    let prims = vec![
        sphere_prim(0, 0, -FX_ONE, FX_HALF, albedo),
        sphere_prim(0, -431638265856, -FX_ONE, 429496729600, albedo),
    ];
    let world = Aggregate::new(prims);
    let cam = Camera::new(
        v(0, 0, 0),
        v(0, 0, -FX_ONE),
        v(0, FX_ONE, 0),
        90 * FX_ONE,
        0,
        FX_ONE,
        12,
        8,
    );
    let mut means = Vec::new();
    for max_bounces in [50usize, 4usize] {
        let mut rng = new_random(79);
        let mut sum: i128 = 0;
        let mut count: i128 = 0;
        for (px, py) in [(3usize, 4usize), (6, 4), (9, 4), (6, 2)] {
            for (ray, _off) in cam.get_rays(600, px, py, &mut rng) {
                let s = color(&ray, &world, max_bounces, &mut rng);
                sum += (s.x as i128 + s.y as i128 + s.z as i128) / 3;
                count += 1;
            }
        }
        means.push(sum / count);
    }
    let (with_roulette, reference) = (means[0], means[1]);
    let diff = (with_roulette - reference).abs();
    // within a few percent of the reference value
    assert!(
        diff * 20 < reference,
        "roulette mean {with_roulette} vs reference {reference}"
    );
}

#[test]
fn stratified_samples_cover_the_unit_square() {
    let mut rng = new_random(59);
    let samples = stratified_samples(32, &mut rng);
    assert_eq!(samples.len(), 32);
    for s in &samples {
        assert!(0 <= s.x && s.x < FX_ONE);
        assert!(0 <= s.y && s.y < FX_ONE);
    }
    // the first coordinates are the fixed stratum starts
    for (k, s) in samples.iter().enumerate() {
        assert_eq!(s.x, (k as i64) * (FX_ONE / 32));
    }
}

#[test]
fn stratified_y_values_cover_each_stratum_once() {
    let mut rng = new_random(89);
    let n = 32usize;
    let samples = stratified_samples(n, &mut rng);
    let mut ys: Vec<i64> = samples.iter().map(|s| s.y).collect();
    ys.sort();
    let w = FX_ONE / n as i64;
    for (j, y) in ys.iter().enumerate() {
        let lo = (j as i64) * w;
        let hi = (j as i64 + 1) * w;
        assert!(lo <= *y && *y < hi, "stratum {j}: {y} not in [{lo}, {hi})");
    }
}

#[test]
fn disk_samples_are_strictly_inside() {
    let mut rng = new_random(83);
    let pts = rays::util::stratified_samples_in_disk(64, &mut rng);
    assert_eq!(pts.len(), 64);
    for p in &pts {
        let m2 = (p.x as i128) * (p.x as i128) + (p.y as i128) * (p.y as i128);
        assert!(m2 < (FX_ONE as i128) * (FX_ONE as i128), "sample on or outside the disk");
    }
}

#[test]
fn aggregate_box_is_the_union_of_primitive_boxes() {
    let gray = v(FX_HALF, FX_HALF, FX_HALF);
    let prims = vec![
        sphere_prim(0, 0, -FX_TWO, FX_ONE, gray),
        sphere_prim(3 * FX_ONE, FX_ONE, -FX_ONE, FX_HALF, gray),
    ];
    let expect = prims[0].bounding_box().unwrap().union(&prims[1].bounding_box().unwrap());
    let agg = Aggregate::new(prims);
    assert_eq!(agg.bounding_box().unwrap(), expect);
}

#[test]
fn cover_scene_has_the_fixed_feature_spheres() {
    let scene = new_cover_scene();
    // straight down onto the glass sphere standing at the origin
    let r = Ray3f::new(v(0, 10 * FX_ONE, 0), v(0, -FX_ONE, 0));
    let hit = scene.intersect(r).expect("glass sphere under the probe");
    assert!(matches!(hit.material, Material::Dielectric(_)));
    assert!((hit.point.y - FX_TWO).abs() < FX_ONE / 1000);
    // the mirror sphere on the right
    let r2 = Ray3f::new(v(4 * FX_ONE, 10 * FX_ONE, 0), v(0, -FX_ONE, 0));
    let h2 = scene.intersect(r2).expect("metal sphere under the probe");
    assert!(matches!(h2.material, Material::Metal(_)));
    // the matte sphere on the left
    let r3 = Ray3f::new(v(-4 * FX_ONE, 10 * FX_ONE, 0), v(0, -FX_ONE, 0));
    let h3 = scene.intersect(r3).expect("matte sphere under the probe");
    assert!(matches!(h3.material, Material::Lambertian(_)));
}

#[test]
fn shuffle_keeps_exactly_the_same_elements() {
    let mut rng = new_random(61);
    let mut values: Vec<i64> = (0..100).map(|k| k * FX_TWO).collect();
    let original = values.clone();
    shuffle(&mut values, &mut rng);
    let mut sorted = values.clone();
    sorted.sort();
    assert_eq!(sorted, original);
}

#[test]
fn framebuffer_accumulates_means() {
    let mut fb = FrameBuf::new(4, 2);
    let off = Vec2 { x: 0, y: 0 };
    fb.add_sample(1, 0, off, v(FX_ONE, 0, FX_TWO));
    fb.add_sample(1, 0, off, v(0, FX_ONE, FX_TWO));
    let buf = fb.to_rgb();
    assert_eq!(buf.len(), 24);
    assert_eq!(buf[3], FX_HALF); // mean of 1 and 0
    assert_eq!(buf[4], FX_HALF); // mean of 0 and 1
    assert_eq!(buf[5], FX_TWO); // mean of 2 and 2
    // untouched pixels divide zero by a zero count and stay zero
    assert_eq!(buf[0], 0);
    let coords = fb.enum_pixels();
    assert_eq!(coords.len(), 8);
    assert_eq!(coords[0], (0, 0));
    assert_eq!(coords[1], (1, 0));
    assert_eq!(coords[4], (0, 1));
}

#[test]
fn pixel_bytes_saturate() {
    let mut fb = FrameBuf::new(1, 1);
    let off = Vec2 { x: 0, y: 0 };
    fb.add_sample(0, 0, off, v(FX_TWO * 4, FX_ONE, 0));
    let coords = fb.enum_pixels();
    assert_eq!(coords, vec![(0, 0)]);
    let mean_x = {
        let buf = fb.to_rgb();
        buf[0]
    };
    assert_eq!(mean_x, FX_TWO * 4);
    // byte quantization: 8.0 clamps to 255, 1.0 scales to 255, 0 stays 0
    assert_eq!(fb.pixels[0].to_rgb(), [255, 255, 0]);
    let mut fb2 = FrameBuf::new(1, 1);
    fb2.add_sample(0, 0, off, v(FX_HALF, FX_ONE / 4, FX_ONE));
    // 0.5 * 255.99 truncates to 127, 0.25 * 255.99 to 63
    assert_eq!(fb2.pixels[0].to_rgb(), [127, 63, 255]);
}

#[test]
fn cover_scene_builds_and_answers_queries() {
    let scene = new_cover_scene();
    let mut rng = new_random(67);
    let from = v(12 * FX_ONE, 3 * FX_ONE, 3 * FX_ONE);
    let to = v(0, 0, -FX_ONE);
    let ray = Ray3f::new(from, to.sub(&from));
    // the ground sphere is enormous: this ray must hit something
    assert!(scene.intersect(ray).is_some());
    let sample = color(&ray, &scene, 50, &mut rng);
    assert!(sample.x >= 0 && sample.y >= 0 && sample.z >= 0);
}

#[test]
fn unit_disk_samples_stay_inside() {
    let mut rng = new_random(73);
    for _ in 0..200 {
        let p = rays::util::random_in_unit_disk(&mut rng);
        let m2 = (p.x as i128) * (p.x as i128) + (p.y as i128) * (p.y as i128);
        // strictly inside the disk, with the quadratic in raw units
        assert!(m2 < (FX_ONE as i128) * (FX_ONE as i128) + FX_ONE as i128);
    }
}

#[test]
fn unit_sphere_samples_stay_inside() {
    let mut rng = new_random(71);
    for _ in 0..200 {
        let p = random_in_unit_sphere(&mut rng);
        assert!(p.mag2() < FX_ONE);
    }
}
