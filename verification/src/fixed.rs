//! Saturating Q32.32 fixed-point scalars.
//!
//! Every geometric quantity in this crate is a signed 64-bit raw value that
//! stands for `raw / 2^32`. All operations saturate at the `i64` range, so
//! they are total: there is no overflow, no wrap-around and no undefined
//! result. Each executable operation is pinned to an exact mathematical
//! spec-level counterpart over `int`.

use vstd::prelude::*;

verus! {

/// Raw representation of 1.0: one full fractional word.
pub const FX_ONE: i64 = 4294967296;

/// Raw representation of roughly 1e-6, the self-intersection guard distance.
pub const FX_EPS: i64 = 4295;

/// Raw representation of 2.0.
pub const FX_TWO: i64 = 8589934592;

pub open spec fn abs_i(x: int) -> int {
    if x >= 0 {
        x
    } else {
        -x
    }
}

/// Clamp a mathematical integer to the `i64` range.
pub open spec fn sat64(x: int) -> int {
    if x > i64::MAX as int {
        i64::MAX as int
    } else if x < i64::MIN as int {
        i64::MIN as int
    } else {
        x
    }
}

/// Division rounding toward zero, as machine division does; 0 when `d == 0`.
pub open spec fn tz_div(x: int, d: int) -> int {
    if d == 0 {
        0
    } else if (x < 0) != (d < 0) {
        -(abs_i(x) / abs_i(d))
    } else {
        abs_i(x) / abs_i(d)
    }
}

pub open spec fn fx_add_s(a: int, b: int) -> int {
    sat64(a + b)
}

pub open spec fn fx_sub_s(a: int, b: int) -> int {
    sat64(a - b)
}

pub open spec fn fx_mul_s(a: int, b: int) -> int {
    sat64(tz_div(a * b, FX_ONE as int))
}

/// Fixed-point division. A zero divisor acts like a signed infinity, which is
/// what the slab test relies on for axis-parallel rays.
pub open spec fn fx_div_s(a: int, b: int) -> int {
    if b == 0 {
        if a == 0 {
            0
        } else if a > 0 {
            i64::MAX as int
        } else {
            i64::MIN as int
        }
    } else {
        sat64(tz_div(a * (FX_ONE as int), b))
    }
}

pub open spec fn min_s(a: int, b: int) -> int {
    if a < b {
        a
    } else {
        b
    }
}

pub open spec fn max_s(a: int, b: int) -> int {
    if a > b {
        a
    } else {
        b
    }
}

/// Integer square root, rounded down; 0 for negative inputs.
pub open spec fn sqrt_floor(x: int) -> int
    decreases x,
{
    if x < 1 {
        0
    } else {
        let p = sqrt_floor(x - 1);
        if (p + 1) * (p + 1) <= x {
            p + 1
        } else {
            p
        }
    }
}

/// Fixed-point square root: the raw result stands for the rounded-down
/// square root of the value the raw argument stands for.
pub open spec fn fx_sqrt_s(a: int) -> int {
    if a <= 0 {
        0
    } else {
        sqrt_floor(a * (FX_ONE as int))
    }
}

pub proof fn lemma_sqrt_floor_bounds(x: int)
    requires
        x >= 0,
    ensures
        0 <= sqrt_floor(x),
        sqrt_floor(x) * sqrt_floor(x) <= x,
        x < (sqrt_floor(x) + 1) * (sqrt_floor(x) + 1),
    decreases x,
{
    if x < 1 {
    } else {
        lemma_sqrt_floor_bounds(x - 1);
        let p = sqrt_floor(x - 1);
        if (p + 1) * (p + 1) <= x {
            assert(x < (p + 2) * (p + 2)) by (nonlinear_arith)
                requires
                    x - 1 < (p + 1) * (p + 1),
                    0 <= p,
            ;
        }
    }
}

pub proof fn lemma_sqrt_floor_unique(x: int, r: int)
    requires
        x >= 0,
        r >= 0,
        r * r <= x,
        x < (r + 1) * (r + 1),
    ensures
        r == sqrt_floor(x),
{
    lemma_sqrt_floor_bounds(x);
    let s = sqrt_floor(x);
    assert(r == s) by (nonlinear_arith)
        requires
            r >= 0,
            s >= 0,
            r * r <= x,
            x < (r + 1) * (r + 1),
            s * s <= x,
            x < (s + 1) * (s + 1),
    ;
}

pub proof fn lemma_tz_div_mono(x: int, y: int, d: int)
    requires
        x <= y,
        d > 0,
    ensures
        tz_div(x, d) <= tz_div(y, d),
{
    if 0 <= x {
        vstd::arithmetic::div_mod::lemma_div_is_ordered(x, y, d);
    } else if y < 0 {
        vstd::arithmetic::div_mod::lemma_div_is_ordered(-y, -x, d);
    } else {
        vstd::arithmetic::div_mod::lemma_div_pos_is_pos(-x, d);
        vstd::arithmetic::div_mod::lemma_div_pos_is_pos(y, d);
    }
}

/// Multiplying by a fixed nonnegative factor is monotone; by a nonpositive
/// one, antitone. Saturation keeps both directions intact.
pub proof fn lemma_fx_mul_mono(a1: int, a2: int, b: int)
    requires
        a1 <= a2,
    ensures
        b >= 0 ==> fx_mul_s(a1, b) <= fx_mul_s(a2, b),
        b <= 0 ==> fx_mul_s(a2, b) <= fx_mul_s(a1, b),
{
    if b >= 0 {
        assert(a1 * b <= a2 * b) by (nonlinear_arith)
            requires
                a1 <= a2,
                b >= 0,
        ;
        lemma_tz_div_mono(a1 * b, a2 * b, FX_ONE as int);
    }
    if b <= 0 {
        assert(a2 * b <= a1 * b) by (nonlinear_arith)
            requires
                a1 <= a2,
                b <= 0,
        ;
        lemma_tz_div_mono(a2 * b, a1 * b, FX_ONE as int);
    }
}

/// One is the multiplicative identity: scaling by 1.0 is exact.
pub proof fn lemma_fx_mul_one(a: int)
    requires
        i64::MIN as int <= a <= i64::MAX as int,
    ensures
        fx_mul_s(a, FX_ONE as int) == a,
{
    let sc = FX_ONE as int;
    assert(abs_i(a * sc) == abs_i(a) * sc) by (nonlinear_arith)
        requires
            sc == 4294967296,
    ;
    vstd::arithmetic::div_mod::lemma_div_multiples_vanish(abs_i(a), sc);
    assert((a * sc < 0) == (a < 0) || a * sc == 0) by (nonlinear_arith)
        requires
            sc == 4294967296,
    ;
}

pub proof fn lemma_fx_mul_nonneg(a: int, b: int)
    requires
        a >= 0,
        b >= 0,
    ensures
        fx_mul_s(a, b) >= 0,
{
    assert(a * b >= 0) by (nonlinear_arith)
        requires
            a >= 0,
            b >= 0,
    ;
    vstd::arithmetic::div_mod::lemma_div_pos_is_pos(a * b, FX_ONE as int);
}

pub proof fn lemma_fx_div_nonneg(a: int, b: int)
    requires
        a >= 0,
        b >= 0,
    ensures
        fx_div_s(a, b) >= 0,
{
    if b != 0 {
        assert(a * (FX_ONE as int) >= 0) by (nonlinear_arith)
            requires
                a >= 0,
        ;
        vstd::arithmetic::div_mod::lemma_div_pos_is_pos(a * (FX_ONE as int), b);
    }
}

pub proof fn lemma_fx_square_nonneg(a: int)
    ensures
        0 <= fx_mul_s(a, a),
        fx_mul_s(a, a) <= i64::MAX as int,
{
    assert(a * a >= 0) by (nonlinear_arith);
    vstd::arithmetic::div_mod::lemma_div_pos_is_pos(a * a, FX_ONE as int);
}

pub fn fx_add(a: i64, b: i64) -> (r: i64)
    ensures
        r as int == fx_add_s(a as int, b as int),
{
    let s: i128 = a as i128 + b as i128;
    if s > i64::MAX as i128 {
        i64::MAX
    } else if s < i64::MIN as i128 {
        i64::MIN
    } else {
        s as i64
    }
}

pub fn fx_sub(a: i64, b: i64) -> (r: i64)
    ensures
        r as int == fx_sub_s(a as int, b as int),
{
    let s: i128 = a as i128 - b as i128;
    if s > i64::MAX as i128 {
        i64::MAX
    } else if s < i64::MIN as i128 {
        i64::MIN
    } else {
        s as i64
    }
}

pub fn fx_min(a: i64, b: i64) -> (r: i64)
    ensures
        r as int == min_s(a as int, b as int),
{
    if a < b {
        a
    } else {
        b
    }
}

pub fn fx_max(a: i64, b: i64) -> (r: i64)
    ensures
        r as int == max_s(a as int, b as int),
{
    if a > b {
        a
    } else {
        b
    }
}

fn abs_mag(a: i64) -> (m: u128)
    ensures
        m as int == abs_i(a as int),
        m <= 0x8000000000000000u128,
{
    if a >= 0 {
        a as u128
    } else {
        (-(a as i128)) as u128
    }
}

pub fn fx_mul(a: i64, b: i64) -> (r: i64)
    ensures
        r as int == fx_mul_s(a as int, b as int),
{
    let neg: bool = (a < 0) != (b < 0);
    let ma: u128 = abs_mag(a);
    let mb: u128 = abs_mag(b);
    proof {
        assert(ma as int * (mb as int) == abs_i((a as int) * (b as int))) by (nonlinear_arith)
            requires
                ma as int == abs_i(a as int),
                mb as int == abs_i(b as int),
        ;
        assert(ma as int * (mb as int) <= 0x8000000000000000 * 0x8000000000000000) by (
        nonlinear_arith)
            requires
                0 <= ma as int,
                (ma as int) <= 0x8000000000000000,
                0 <= mb as int,
                (mb as int) <= 0x8000000000000000,
        ;
        assert(((a as int) < 0) != ((b as int) < 0) ==> (a as int) * (b as int) <= 0) by (
        nonlinear_arith);
        assert(((a as int) < 0) == ((b as int) < 0) ==> (a as int) * (b as int) >= 0) by (
        nonlinear_arith);
    }
    let p: u128 = ma * mb;
    let q: u128 = p / 4294967296u128;
    let ab: Ghost<int> = Ghost((a as int) * (b as int));
    proof {
        assert(q as int == abs_i(ab@) / (FX_ONE as int));
        assert(tz_div(ab@, FX_ONE as int) == if neg {
            -(q as int)
        } else {
            q as int
        });
    }
    if neg {
        if q > 9223372036854775808u128 {
            i64::MIN
        } else {
            (-(q as i128)) as i64
        }
    } else {
        if q > 9223372036854775807u128 {
            i64::MAX
        } else {
            q as i64
        }
    }
}

pub fn fx_div(a: i64, b: i64) -> (r: i64)
    ensures
        r as int == fx_div_s(a as int, b as int),
{
    if b == 0 {
        return if a == 0 {
            0i64
        } else if a > 0 {
            i64::MAX
        } else {
            i64::MIN
        };
    }
    let neg: bool = (a < 0) != (b < 0);
    let ma: u128 = abs_mag(a);
    let mb: u128 = abs_mag(b);
    let p: u128 = ma * 4294967296u128;
    let q: u128 = p / mb;
    proof {
        let sc = FX_ONE as int;
        assert(p as int == abs_i((a as int) * sc)) by (nonlinear_arith)
            requires
                ma as int == abs_i(a as int),
                p as int == (ma as int) * sc,
                sc == 4294967296,
        ;
        assert(q as int == abs_i((a as int) * sc) / abs_i(b as int));
        assert(((a as int) < 0) != ((b as int) < 0) ==> (a as int) * sc * (b as int) <= 0) by (
        nonlinear_arith)
            requires
                sc == 4294967296,
        ;
        assert((((a as int) * sc) < 0) == ((a as int) < 0) || (a as int) * sc == 0) by (
        nonlinear_arith)
            requires
                sc == 4294967296,
        ;
        assert(tz_div((a as int) * sc, b as int) == if neg {
            -(q as int)
        } else {
            q as int
        });
    }
    if neg {
        if q > 9223372036854775808u128 {
            i64::MIN
        } else {
            (-(q as i128)) as i64
        }
    } else {
        if q > 9223372036854775807u128 {
            i64::MAX
        } else {
            q as i64
        }
    }
}

fn isqrt_u128(x: u128) -> (r: u128)
    requires
        x < 0x40000000000000000000000000000000u128,
    ensures
        r as int == sqrt_floor(x as int),
{
    let mut lo: u128 = 0;
    let mut hi: u128 = 0x8000000000000000u128;
    proof {
        assert((hi as int) * (hi as int) == 0x40000000000000000000000000000000) by (
        nonlinear_arith)
            requires
                hi as int == 0x8000000000000000,
        ;
    }
    while hi - lo > 1
        invariant
            lo < hi,
            hi <= 0x8000000000000000u128,
            (lo as int) * (lo as int) <= x as int,
            (x as int) < (hi as int) * (hi as int),
        decreases hi - lo,
    {
        let mid: u128 = lo + (hi - lo) / 2;
        proof {
            assert((mid as int) * (mid as int) < 0x40000000000000000000000000000000) by (
            nonlinear_arith)
                requires
                    0 <= mid as int,
                    (mid as int) < 0x8000000000000000,
            ;
        }
        if mid * mid <= x {
            lo = mid;
        } else {
            hi = mid;
        }
    }
    proof {
        lemma_sqrt_floor_unique(x as int, lo as int);
    }
    lo
}

pub fn fx_sqrt(a: i64) -> (r: i64)
    ensures
        r as int == fx_sqrt_s(a as int),
{
    if a <= 0 {
        return 0i64;
    }
    let x: u128 = (a as u128) * 4294967296u128;
    let r: u128 = isqrt_u128(x);
    proof {
        lemma_sqrt_floor_bounds(x as int);
        assert(r as int <= 0x100000000000000) by (nonlinear_arith)
            requires
                0 <= r as int,
                (r as int) * (r as int) <= x as int,
                (x as int) < 0x100000000000000 * 0x100000000000000,
        ;
    }
    r as i64
}

/// Raw value of one half turn.
pub const FX_HALF: i64 = 2147483648;

/// Raw value of one quarter turn.
pub const FX_QUARTER: i64 = 1073741824;

/// Rational sine approximation on half a turn: `z` in `[0, 1]` stands for an
/// angle in `[0, pi]`, and `sin(pi z) ~ 16 z (1 - z) / (5 - 4 z (1 - z))`,
/// which is exact at both ends and at the crest and never exceeds 1.
pub open spec fn sin_half_s(z: int) -> int {
    let u = fx_mul_s(z, (FX_ONE as int) - z);
    fx_div_s(16 * u, 5 * (FX_ONE as int) - 4 * u)
}

/// Sine of a fraction of a full turn in `[0, 1)`.
pub open spec fn sin_turn_s(t: int) -> int {
    if t <= FX_HALF as int {
        sin_half_s(2 * t)
    } else {
        -sin_half_s(2 * t - FX_ONE as int)
    }
}

/// Cosine of a fraction of a full turn, as the sine a quarter turn later.
pub open spec fn cos_turn_s(t: int) -> int {
    if t < 3 * (FX_QUARTER as int) {
        sin_turn_s(t + FX_QUARTER as int)
    } else {
        sin_turn_s(t + (FX_QUARTER as int) - (FX_ONE as int))
    }
}

/// The sine half of a paired sine/cosine draw: its magnitude is the exact
/// integer square root of `1 - cos^2`, so the pair never leaves the unit
/// circle.
pub open spec fn sincos_s(t: int) -> (int, int) {
    let c = cos_turn_s(t);
    let m = sqrt_floor((FX_ONE as int) * (FX_ONE as int) - c * c);
    (c, if t <= FX_HALF as int { m } else { -m })
}

fn fx_sin_half(z: i64) -> (r: i64)
    requires
        0 <= z <= FX_ONE,
    ensures
        r as int == sin_half_s(z as int),
        0 <= r <= FX_ONE,
{
    let u = fx_mul(z, fx_sub(FX_ONE, z));
    proof {
        let zi = z as int;
        let sc = FX_ONE as int;
        assert(0 <= zi * (sc - zi) && 4 * (zi * (sc - zi)) <= sc * sc) by (nonlinear_arith)
            requires
                0 <= zi <= sc,
        ;
        vstd::arithmetic::div_mod::lemma_div_pos_is_pos(zi * (sc - zi), sc);
        lemma_tz_div_mono(4 * (zi * (sc - zi)), sc * sc, sc);
        assert((sc * sc) / sc == sc) by (nonlinear_arith)
            requires
                sc == 4294967296,
        ;
        lemma_tz_div_mono(zi * (sc - zi), sc * sc, sc);
    }
    let num = 16 * u;
    let den = 5 * FX_ONE - 4 * u;
    let r = fx_div(num, den);
    proof {
        let n = num as int;
        let d = den as int;
        let sc = FX_ONE as int;
        assert(0 <= n && n <= d && 0 < d);
        vstd::arithmetic::div_mod::lemma_div_pos_is_pos(n * sc, d);
        lemma_tz_div_mono(n * sc, d * sc, d);
        assert((d * sc) / d == sc) by (nonlinear_arith)
            requires
                0 < d,
                sc == 4294967296,
                d * sc == d * 4294967296,
        ;
        assert(n * sc >= 0) by (nonlinear_arith)
            requires
                0 <= n,
                sc > 0,
        ;
    }
    r
}

fn fx_sin_turn(t: i64) -> (r: i64)
    requires
        0 <= t < FX_ONE,
    ensures
        r as int == sin_turn_s(t as int),
        -FX_ONE <= r <= FX_ONE,
        t <= FX_HALF ==> r >= 0,
        t > FX_HALF ==> r <= 0,
{
    if t <= FX_HALF {
        fx_sin_half(2 * t)
    } else {
        let s = fx_sin_half(2 * t - FX_ONE);
        -s
    }
}

/// Cosine and sine of a fraction `t` of a full turn. The two stay on or
/// inside the unit circle exactly: `c*c + s*s <= 1`.
pub fn fx_sincos_turn(t: i64) -> (r: (i64, i64))
    requires
        0 <= t < FX_ONE,
    ensures
        (r.0 as int, r.1 as int) == sincos_s(t as int),
        -FX_ONE <= r.0 <= FX_ONE,
        -FX_ONE <= r.1 <= FX_ONE,
        (r.0 as int) * (r.0 as int) + (r.1 as int) * (r.1 as int) <= (FX_ONE as int) * (
        FX_ONE as int),
{
    let c = if t < 3 * FX_QUARTER {
        fx_sin_turn(t + FX_QUARTER)
    } else {
        fx_sin_turn(t + FX_QUARTER - FX_ONE)
    };
    proof {
        assert(0 <= (c as int) * (c as int) && (c as int) * (c as int) <= (FX_ONE as int) * (
        FX_ONE as int)) by (nonlinear_arith)
            requires
                -(FX_ONE as int) <= c as int,
                (c as int) <= FX_ONE as int,
        ;
    }
    let cc: i128 = (c as i128) * (c as i128);
    let rest: u128 = ((FX_ONE as u128) * (FX_ONE as u128)) - (cc as u128);
    let m128 = isqrt_u128(rest);
    proof {
        lemma_sqrt_floor_bounds(rest as int);
        assert(sqrt_floor(rest as int) <= FX_ONE as int) by (nonlinear_arith)
            requires
                0 <= sqrt_floor(rest as int),
                sqrt_floor(rest as int) * sqrt_floor(rest as int) <= rest as int,
                rest as int <= (FX_ONE as int) * (FX_ONE as int),
                FX_ONE == 4294967296,
        ;
    }
    let m = m128 as i64;
    let s = if t <= FX_HALF {
        m
    } else {
        -m
    };
    proof {
        assert((s as int) * (s as int) == (m as int) * (m as int)) by (nonlinear_arith)
            requires
                s as int == m as int || s as int == -(m as int),
        ;
    }
    (c, s)
}

/// Saturating conversion of a wide whole count into fixed point.
pub fn fx_from_u128(n: u128) -> (r: i64)
    requires
        n < 0x1000000000000000000000000u128,
    ensures
        r as int == sat64(n * (FX_ONE as int)),
{
    let p: u128 = n * 4294967296u128;
    proof {
        assert((n as int) * 4294967296 >= 0) by (nonlinear_arith)
            requires
                n as int >= 0,
        ;
    }
    if p > 9223372036854775807u128 {
        i64::MAX
    } else {
        p as i64
    }
}

/// Saturating conversion of a whole count into fixed point.
pub fn fx_from_usize(n: usize) -> (r: i64)
    ensures
        r as int == sat64(n * (FX_ONE as int)),
{
    let p: u128 = (n as u128) * 4294967296u128;
    proof {
        assert((n as int) * 4294967296 >= 0) by (nonlinear_arith)
            requires
                n as int >= 0,
        ;
    }
    if p > 9223372036854775807u128 {
        i64::MAX
    } else {
        p as i64
    }
}

} // verus!
