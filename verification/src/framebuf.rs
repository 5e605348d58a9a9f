//! The framebuffer: per-pixel accumulators of summed radiance and sample
//! counts, and the conversions the exporters read.

use vstd::prelude::*;

use crate::fixed::{fx_div, fx_div_s, fx_from_usize, fx_mul, fx_mul_s, sat64, tz_div, FX_ONE};
use crate::vec3::{v3_add, v3_div_s, v3_from_value, Vec2, Vec3};

verus! {

/// Raw fixed-point value of 255.99, the byte-quantization factor.
pub const FX_BYTE: i64 = 1099468632883;

#[derive(Clone, Copy, PartialEq, Eq, Structural, Debug)]
pub struct Pixel {
    pub rgb: Vec3,
    pub count: usize,
}

/// The mean radiance a pixel has accumulated.
pub open spec fn pixel_mean_s(p: Pixel) -> Vec3 {
    v3_div_s(p.rgb, sat64((p.count as int) * (FX_ONE as int)))
}

/// One mean component quantized to a byte, saturating on both ends as the
/// float-to-byte cast does.
pub open spec fn byte_of_s(c: int) -> int {
    let v = fx_mul_s(c, FX_BYTE as int);
    if v < 0 {
        0
    } else {
        let q = tz_div(v, FX_ONE as int);
        if q > 255 {
            255
        } else {
            q
        }
    }
}

fn byte_of(c: i64) -> (b: u8)
    ensures
        b as int == byte_of_s(c as int),
{
    let v = fx_mul(c, FX_BYTE);
    if v < 0 {
        0
    } else {
        let q = (v as u64) / 4294967296u64;
        if q > 255 {
            255
        } else {
            q as u8
        }
    }
}

impl Pixel {
    fn new() -> (p: Pixel)
        ensures
            p.rgb == v3_from_value(0),
            p.count == 0,
    {
        Pixel { rgb: Vec3::zero(), count: 0 }
    }

    pub fn add_sample(&mut self, rgb: Vec3)
        requires
            old(self).count < usize::MAX,
        ensures
            final(self).rgb == v3_add(old(self).rgb, rgb),
            final(self).count == old(self).count + 1,
    {
        self.rgb = self.rgb.add(&rgb);
        self.count = self.count + 1;
    }

    /// The mean radiance quantized to one byte per channel.
    pub fn to_rgb(&self) -> (rgb: [u8; 3])
        ensures
            rgb[0] as int == byte_of_s(pixel_mean_s(*self).x as int),
            rgb[1] as int == byte_of_s(pixel_mean_s(*self).y as int),
            rgb[2] as int == byte_of_s(pixel_mean_s(*self).z as int),
    {
        let mean = self.rgb.div_s(fx_from_usize(self.count));
        [byte_of(mean.x), byte_of(mean.y), byte_of(mean.z)]
    }

    pub fn x(&self) -> (r: i64)
        ensures
            r == pixel_mean_s(*self).x,
    {
        fx_div(self.rgb.x, fx_from_usize(self.count))
    }

    pub fn y(&self) -> (r: i64)
        ensures
            r == pixel_mean_s(*self).y,
    {
        fx_div(self.rgb.y, fx_from_usize(self.count))
    }

    pub fn z(&self) -> (r: i64)
        ensures
            r == pixel_mean_s(*self).z,
    {
        fx_div(self.rgb.z, fx_from_usize(self.count))
    }
}

pub struct FrameBuf {
    pub width: usize,
    pub height: usize,
    pub pixels: Vec<Pixel>,
}

impl FrameBuf {
    pub open spec fn pixels_s(&self) -> Seq<Pixel> {
        self.pixels@
    }

    pub open spec fn wf(&self) -> bool {
        self.pixels_s().len() == (self.width as int) * (self.height as int)
    }

    pub fn new(width: usize, height: usize) -> (fb: FrameBuf)
        requires
            (width as int) * (height as int) <= usize::MAX,
        ensures
            fb.wf(),
            fb.width == width,
            fb.height == height,
            forall|k: int|
                0 <= k < fb.pixels_s().len() ==> #[trigger] fb.pixels_s()[k] == (Pixel {
                    rgb: v3_from_value(0),
                    count: 0,
                }),
    {
        proof {
            assert((width as int) * (height as int) >= 0) by (nonlinear_arith);
        }
        let total = width * height;
        let mut pixels: Vec<Pixel> = Vec::new();
        let mut k: usize = 0;
        while k < total
            invariant
                k <= total,
                pixels@.len() == k as int,
                forall|j: int|
                    0 <= j < k as int ==> #[trigger] pixels@[j] == (Pixel {
                        rgb: v3_from_value(0),
                        count: 0,
                    }),
            decreases total - k,
        {
            pixels.push(Pixel::new());
            k = k + 1;
        }
        FrameBuf { width, height, pixels }
    }

    /// Add one sample to one pixel. The sub-pixel offset is accepted but
    /// carries no weight: reconstruction is a box filter.
    pub fn add_sample(&mut self, px: usize, py: usize, _subpixel: Vec2, rgb: Vec3)
        requires
            old(self).wf(),
            px < old(self).width,
            py < old(self).height,
            old(self).pixels_s()[px + (old(self).width as int) * py].count < usize::MAX,
        ensures
            final(self).wf(),
            final(self).width == old(self).width,
            final(self).height == old(self).height,
            final(self).pixels_s() == old(self).pixels_s().update(
                px + (old(self).width as int) * py,
                Pixel {
                    rgb: v3_add(old(self).pixels_s()[px + (old(self).width as int) * py].rgb, rgb),
                    count: (old(self).pixels_s()[px + (old(self).width as int) * py].count
                        + 1) as usize,
                },
            ),
    {
        proof {
            let w = self.width as int;
            let h = self.height as int;
            let pxi = px as int;
            let pyi = py as int;
            assert(pxi + w * pyi < w * h && w * pyi >= 0) by (nonlinear_arith)
                requires
                    0 <= pxi < w,
                    0 <= pyi < h,
            ;
        }
        let n = self.pixels.len();
        let idx = px + self.width * py;
        self.pixels[idx].add_sample(rgb);
    }

    /// The accumulated means, flattened three channels per pixel in pixel
    /// index order.
    pub fn to_rgb(&self) -> (buf: Vec<i64>)
        requires
            self.wf(),
            self.pixels_s().len() * 3 <= usize::MAX,
        ensures
            buf@.len() == self.pixels_s().len() * 3,
            forall|k: int|
                0 <= k < self.pixels_s().len() ==> {
                    &&& buf@[3 * k] == pixel_mean_s(#[trigger] self.pixels_s()[k]).x
                    &&& buf@[3 * k + 1] == pixel_mean_s(self.pixels_s()[k]).y
                    &&& buf@[3 * k + 2] == pixel_mean_s(self.pixels_s()[k]).z
                },
    {
        let mut buf: Vec<i64> = Vec::new();
        let mut k: usize = 0;
        let total = self.pixels.len();
        while k < total
            invariant
                k <= total,
                total == self.pixels_s().len(),
                self.pixels_s().len() * 3 <= usize::MAX,
                buf@.len() == 3 * k as int,
                forall|j: int|
                    0 <= j < k as int ==> {
                        &&& buf@[3 * j] == pixel_mean_s(#[trigger] self.pixels_s()[j]).x
                        &&& buf@[3 * j + 1] == pixel_mean_s(self.pixels_s()[j]).y
                        &&& buf@[3 * j + 2] == pixel_mean_s(self.pixels_s()[j]).z
                    },
            decreases total - k,
        {
            let p = &self.pixels[k];
            buf.push(p.x());
            buf.push(p.y());
            buf.push(p.z());
            k = k + 1;
        }
        buf
    }

    /// Every pixel coordinate, first coordinate varying fastest.
    pub fn enum_pixels(&self) -> (coords: Vec<(usize, usize)>)
        requires
            self.wf(),
        ensures
            coords@.len() == (self.width as int) * (self.height as int),
            forall|x: int, y: int|
                0 <= x < self.width as int && 0 <= y < self.height as int
                    ==> #[trigger] coords@[y * (self.width as int) + x] == ((x as usize, y as usize)),
    {
        let mut coords: Vec<(usize, usize)> = Vec::new();
        let mut py: usize = 0;
        while py < self.height
            invariant
                py <= self.height,
                self.wf(),
                coords@.len() == (self.width as int) * (py as int),
                forall|x: int, y: int|
                    0 <= x < self.width as int && 0 <= y < py as int
                        ==> #[trigger] coords@[y * (self.width as int) + x] == ((
                    x as usize,
                    y as usize,
                )),
            decreases self.height - py,
        {
            let mut px: usize = 0;
            while px < self.width
                invariant
                    px <= self.width,
                    py < self.height,
                    self.wf(),
                    coords@.len() == (self.width as int) * (py as int) + px as int,
                    forall|x: int, y: int|
                        0 <= x < self.width as int && 0 <= y < py as int
                            ==> #[trigger] coords@[y * (self.width as int) + x] == ((
                        x as usize,
                        y as usize,
                    )),
                    forall|x: int|
                        0 <= x < px as int ==> #[trigger] coords@[(py as int) * (
                        self.width as int) + x] == ((x as usize, py as usize)),
                decreases self.width - px,
            {
                coords.push((px, py));
                proof {
                    let w = self.width as int;
                    assert forall|x: int, y: int|
                        0 <= x < w && 0 <= y < py as int implies #[trigger] coords@[y * w + x]
                        == ((x as usize, y as usize)) by {
                        lemma_grid_idx(y, py as int, x, w);
                    }
                    assert((py as int) * w + px as int == w * (py as int) + px as int)
                        by (nonlinear_arith);
                }
                px = px + 1;
            }
            proof {
                let w = self.width as int;
                assert(w * (py as int) + w == w * (py as int + 1)) by (nonlinear_arith);
            }
            py = py + 1;
        }
        coords
    }
}

/// A cell of a completed earlier row sits strictly below the current row's
/// start.
proof fn lemma_grid_idx(y: int, py: int, x: int, w: int)
    requires
        0 <= y < py,
        0 <= x < w,
    ensures
        0 <= y * w + x,
        y * w + x < w * py,
        y * w + x < w * py + 1,
{
    assert(0 <= y * w + x && y * w + x < w * py) by (nonlinear_arith)
        requires
            0 <= y < py,
            0 <= x < w,
    ;
}

} // verus!
