//! The thin-lens camera: an orthonormal basis and an image plane derived
//! once from the pose, then sampled rays per pixel with stratified sub-pixel
//! jitter and, for depth of field, a lens offset drawn from the unit disk.

use vstd::prelude::*;

use rand::rngs::SmallRng;

use crate::fixed::{
    fx_add, fx_add_s, fx_div, fx_div_s, fx_from_usize, fx_mul, fx_mul_s, fx_sincos_turn,
    lemma_fx_div_nonneg, sat64, sincos_s, FX_ONE, FX_TWO,
};
use crate::geom::{ray_new_s, Ray3f};
use crate::util::{
    in_unit01, lemma_scale_into_disk, shuffle, strat_x_s, stratified_samples,
    stratified_samples_in_disk, stratified_ys, ys_of,
};
use crate::vec3::{v3_add, v3_cross, v3_normalize, v3_scale, v3_sub, Vec2, Vec3};

verus! {

/// Raw fixed-point value of 720: twice the degrees of a full turn, so that
/// `fov / 720` is the half-angle as a fraction of a turn.
pub const FX_720: i64 = 3092376453120;

pub struct Camera {
    /// Center of the lens.
    pub origin: Vec3,
    /// Lower left corner of the transformed image plane.
    pub lower_left: Vec3,
    /// Horizontal edge of the transformed image plane.
    pub horizontal: Vec3,
    /// Vertical edge of the transformed image plane.
    pub vertical: Vec3,
    pub lens_radius: i64,
    pub u: Vec3,
    pub v: Vec3,
    pub w: Vec3,
    pub film_w: i64,
    pub film_h: i64,
    pub pixel_sx: i64,
    pub pixel_sy: i64,
}

/// Everything `Camera::new` derives from the pose, in one place.
pub open spec fn camera_new_s(
    origin: Vec3,
    target: Vec3,
    up: Vec3,
    fov: i64,
    aperture: i64,
    focus_dist: i64,
    film_w: usize,
    film_h: usize,
) -> Camera {
    let tq = fx_div_s(fov as int, FX_720 as int);
    let cs = sincos_s(tq);
    let half_width = fx_div_s(cs.1, cs.0);
    let fw = sat64(film_w * (FX_ONE as int));
    let fh = sat64(film_h * (FX_ONE as int));
    let aspect = fx_div_s(fw, fh);
    let half_height = fx_div_s(half_width, aspect);
    let w = v3_normalize(v3_sub(origin, target));
    let u = v3_normalize(v3_cross(up, w));
    let v = v3_cross(w, u);
    Camera {
        origin,
        lower_left: v3_sub(
            origin,
            v3_scale(
                v3_add(v3_add(v3_scale(u, half_width), v3_scale(v, half_height)), w),
                focus_dist as int,
            ),
        ),
        horizontal: v3_scale(
            v3_scale(u, fx_add_s(half_width, half_width)),
            focus_dist as int,
        ),
        vertical: v3_scale(
            v3_scale(v, fx_add_s(half_height, half_height)),
            focus_dist as int,
        ),
        lens_radius: fx_div_s(aperture as int, FX_TWO as int) as i64,
        u,
        v,
        w,
        film_w: fw as i64,
        film_h: fh as i64,
        pixel_sx: fx_div_s(FX_ONE as int, fw) as i64,
        pixel_sy: fx_div_s(FX_ONE as int, fh) as i64,
    }
}

/// The lens never has a negative radius.
pub open spec fn camera_wf(c: Camera) -> bool {
    c.lens_radius >= 0
}

/// Displacement on the lens plane by the scaled disk sample `ab`.
pub open spec fn lens_shift(c: Camera, ab: Vec2) -> Vec3 {
    v3_add(v3_scale(c.u, ab.x as int), v3_scale(c.v, ab.y as int))
}

/// The ray cast for film position `(px, py)` given the sub-pixel jitter
/// `off` and the scaled lens sample `ab`.
pub open spec fn cam_ray_s(c: Camera, px: usize, py: usize, off: Vec2, ab: Vec2) -> Ray3f {
    let o = v3_add(c.origin, lens_shift(c, ab));
    let fpx = fx_div_s(sat64(px * (FX_ONE as int)), c.film_w as int);
    let fpy = fx_div_s(sat64(py * (FX_ONE as int)), c.film_h as int);
    let dir = v3_sub(
        v3_add(
            v3_add(
                c.lower_left,
                v3_scale(c.horizontal, fx_add_s(fpx as int, fx_mul_s(off.x as int, c.pixel_sx as int))),
            ),
            v3_scale(c.vertical, fx_add_s(fpy as int, fx_mul_s(off.y as int, c.pixel_sy as int))),
        ),
        o,
    );
    ray_new_s(o, dir)
}

/// One returned sample is some scaled lens draw `ab` paired with the
/// returned jitter: the ray is exactly the one those two determine. A zero
/// lens radius forces the draw to the lens center; a positive one keeps it
/// strictly inside the disk of the lens radius.
pub open spec fn ray_sample_ok(c: Camera, px: usize, py: usize, s: (Ray3f, Vec2)) -> bool {
    exists|ab: Vec2|
        #![trigger lens_shift(c, ab)]
        {
            &&& if c.lens_radius == 0 {
                ab.x == 0 && ab.y == 0
            } else {
                (ab.x as int) * (ab.x as int) + (ab.y as int) * (ab.y as int) < (
                c.lens_radius as int) * (c.lens_radius as int)
            }
            &&& s.0 == cam_ray_s(c, px, py, s.1, ab)
        }
}

/// The sub-pixel offsets of a returned ray batch, in order.
pub open spec fn offsets_of(s: Seq<(Ray3f, Vec2)>) -> Seq<Vec2> {
    s.map_values(|p: (Ray3f, Vec2)| p.1)
}

impl Camera {
    pub fn new(
        origin: Vec3,
        target: Vec3,
        up: Vec3,
        fov: i64,
        aperture: i64,
        focus_dist: i64,
        film_w: usize,
        film_h: usize,
    ) -> (c: Camera)
        requires
            0 <= fov < FX_720,
            0 <= aperture,
        ensures
            c == camera_new_s(origin, target, up, fov, aperture, focus_dist, film_w, film_h),
            camera_wf(c),
    {
        let tq = fx_div(fov, FX_720);
        proof {
            crate::fixed::lemma_tz_div_mono(
                (fov as int) * (FX_ONE as int),
                (FX_720 as int - 1) * (FX_ONE as int),
                FX_720 as int,
            );
            assert(((FX_720 as int - 1) * (FX_ONE as int)) / (FX_720 as int) < FX_ONE as int)
                by (nonlinear_arith)
                requires
                    FX_720 == 3092376453120i64,
                    FX_ONE == 4294967296i64,
            ;
            assert((fov as int) * (FX_ONE as int) >= 0) by (nonlinear_arith)
                requires
                    fov >= 0,
            ;
            vstd::arithmetic::div_mod::lemma_div_pos_is_pos(
                (fov as int) * (FX_ONE as int),
                FX_720 as int,
            );
        }
        let cs = fx_sincos_turn(tq);
        let half_width = fx_div(cs.1, cs.0);
        let fw = fx_from_usize(film_w);
        let fh = fx_from_usize(film_h);
        let aspect = fx_div(fw, fh);
        let half_height = fx_div(half_width, aspect);
        let w = origin.sub(&target).normalize();
        let u = up.cross(&w).normalize();
        let v = w.cross(&u);
        let lens_radius = fx_div(aperture, FX_TWO);
        proof {
            lemma_fx_div_nonneg(aperture as int, FX_TWO as int);
        }
        Camera {
            origin,
            lower_left: origin.sub(
                &u.scale(half_width).add(&v.scale(half_height)).add(&w).scale(focus_dist),
            ),
            horizontal: u.scale(fx_add(half_width, half_width)).scale(focus_dist),
            vertical: v.scale(fx_add(half_height, half_height)).scale(focus_dist),
            lens_radius,
            u,
            v,
            w,
            film_w: fw,
            film_h: fh,
            pixel_sx: fx_div(FX_ONE, fw),
            pixel_sy: fx_div(FX_ONE, fh),
        }
    }

    /// `n` primary rays for the pixel, each with the sub-pixel offset it was
    /// sampled at. With a zero aperture every ray starts at the lens center;
    /// with a positive one, each origin is displaced by a point strictly
    /// inside the disk of the lens radius. The offsets' second coordinates
    /// are, as a multiset, one value per stratum.
    pub fn get_rays(&self, n: usize, px: usize, py: usize, rng: &mut SmallRng) -> (rays: Vec<
        (Ray3f, Vec2),
    >)
        requires
            camera_wf(*self),
        ensures
            rays@.len() == n as int,
            forall|k: int| 0 <= k < n as int ==> in_unit01((#[trigger] rays@[k]).1),
            forall|k: int|
                0 <= k < n as int ==> ((#[trigger] rays@[k]).1.x as int) == strat_x_s(k, n as int),
            forall|k: int| 0 <= k < n as int ==> ray_sample_ok(*self, px, py, #[trigger] rays@[k]),
            self.lens_radius == 0 ==> forall|k: int|
                0 <= k < n as int ==> (#[trigger] rays@[k]).0.origin == self.origin,
            (n as int) * (FX_ONE as int) <= i64::MAX as int ==> exists|ys: Seq<i64>|
                #[trigger] stratified_ys(ys, n as int) && ys_of(offsets_of(rays@)).to_multiset()
                    == ys.to_multiset(),
    {
        let fpx = fx_div(fx_from_usize(px), self.film_w);
        let fpy = fx_div(fx_from_usize(py), self.film_h);
        let mut lens_samples = stratified_samples_in_disk(n, rng);
        let ghost pre = lens_samples@;
        shuffle(&mut lens_samples, rng);
        proof {
            broadcast use vstd::seq_lib::group_to_multiset_ensures;

            assert forall|j: int| 0 <= j < lens_samples@.len() implies ((
            #[trigger] lens_samples@[j]).x as int) * (lens_samples@[j].x as int) + (
            lens_samples@[j].y as int) * (lens_samples@[j].y as int) < (FX_ONE as int) * (
            FX_ONE as int) by {
                let s = lens_samples@[j];
                assert(lens_samples@.contains(s));
                assert(lens_samples@.to_multiset().count(s) > 0);
                assert(pre.to_multiset().count(s) > 0);
                assert(pre.contains(s));
                let jj = choose|jj: int| 0 <= jj < pre.len() && pre[jj] == s;
                assert(pre[jj] == s);
            }
        }
        let pixel_offsets = stratified_samples(n, rng);
        let mut rays: Vec<(Ray3f, Vec2)> = Vec::new();
        let mut k: usize = 0;
        while k < n
            invariant
                k <= n,
                rays@.len() == k as int,
                lens_samples@.len() == n as int,
                pixel_offsets@.len() == n as int,
                camera_wf(*self),
                fpx as int == fx_div_s(sat64((px as int) * (FX_ONE as int)), self.film_w as int),
                fpy as int == fx_div_s(sat64((py as int) * (FX_ONE as int)), self.film_h as int),
                forall|j: int|
                    0 <= j < n as int ==> ((#[trigger] lens_samples@[j]).x as int) * (
                    lens_samples@[j].x as int) + (lens_samples@[j].y as int) * (
                    lens_samples@[j].y as int) < (FX_ONE as int) * (FX_ONE as int),
                forall|j: int| 0 <= j < n as int ==> in_unit01(#[trigger] pixel_offsets@[j]),
                forall|j: int|
                    0 <= j < n as int ==> ((#[trigger] pixel_offsets@[j]).x as int) == strat_x_s(
                        j,
                        n as int,
                    ),
                forall|j: int| 0 <= j < k as int ==> in_unit01((#[trigger] rays@[j]).1),
                forall|j: int|
                    0 <= j < k as int ==> ((#[trigger] rays@[j]).1.x as int) == strat_x_s(
                        j,
                        n as int,
                    ),
                forall|j: int|
                    0 <= j < k as int ==> ray_sample_ok(*self, px, py, #[trigger] rays@[j]),
                self.lens_radius == 0 ==> forall|j: int|
                    0 <= j < k as int ==> (#[trigger] rays@[j]).0.origin == self.origin,
                forall|j: int| 0 <= j < k as int ==> (#[trigger] rays@[j]).1 == pixel_offsets@[j],
            decreases n - k,
        {
            let ls = lens_samples[k];
            let off = pixel_offsets[k];
            let a = fx_mul(ls.x, self.lens_radius);
            let b = fx_mul(ls.y, self.lens_radius);
            let ab = Vec2 { x: a, y: b };
            proof {
                lemma_scale_into_disk(self.lens_radius as int, ls.x as int, ls.y as int);
            }
            let lens_pos = self.u.scale(a).add(&self.v.scale(b));
            let origin = self.origin.add(&lens_pos);
            let dir = self
                .lower_left
                .add(&self.horizontal.scale(fx_add(fpx, fx_mul(off.x, self.pixel_sx))))
                .add(&self.vertical.scale(fx_add(fpy, fx_mul(off.y, self.pixel_sy))))
                .sub(&origin);
            let ray = Ray3f::new(origin, dir);
            proof {
                assert(ray == cam_ray_s(*self, px, py, off, ab));
                if self.lens_radius == 0 {
                    crate::material::lemma_scale_by_zero(Vec3 { x: ls.x, y: ls.y, z: 0 });
                    assert(a == 0 && b == 0);
                    crate::material::lemma_scale_by_zero(self.u);
                    crate::material::lemma_scale_by_zero(self.v);
                    assert(origin == self.origin);
                }
                assert(ray_sample_ok(*self, px, py, (ray, off)));
            }
            rays.push((ray, off));
            k = k + 1;
        }
        proof {
            if (n as int) * (FX_ONE as int) <= i64::MAX as int {
                let ys = choose|ys: Seq<i64>|
                    #[trigger] stratified_ys(ys, n as int) && ys_of(
                        pixel_offsets@,
                    ).to_multiset() == ys.to_multiset();
                assert(offsets_of(rays@) =~= pixel_offsets@);
                assert(stratified_ys(ys, n as int) && ys_of(offsets_of(rays@)).to_multiset()
                    == ys.to_multiset());
            }
        }
        rays
    }
}

} // verus!
