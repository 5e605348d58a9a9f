//! Random sampling: the generator handle, rejection sampling inside the unit
//! ball and disk, and stratified sample sequences for the camera.
//!
//! Randomness is drawn through an explicit generator handle rather than
//! hidden global state, so every worker can own an independent stream.

use vstd::prelude::*;

use rand::rngs::SmallRng;
use rand::seq::SliceRandom;
use rand::RngCore;
use rand::SeedableRng;

use crate::fixed::{
    abs_i, fx_add, fx_add_s, fx_div, fx_div_s, fx_from_usize, fx_mul, fx_mul_s, fx_sincos_turn, fx_sqrt,
    fx_sqrt_s, fx_sub, lemma_sqrt_floor_bounds, sat64, sincos_s, sqrt_floor, tz_div,
    FX_ONE, FX_TWO,
};
use crate::vec3::{v3_mag2, Vec2, Vec3};

verus! {

#[verifier::external_type_specification]
#[verifier::external_body]
pub struct ExSmallRng(SmallRng);

/// Relies on rand's `SeedableRng::seed_from_u64` for `SmallRng`: a
/// deterministic small-state generator built from a 64-bit seed.
#[verifier::external_body]
pub fn new_random(seed: u64) -> (rng: SmallRng) {
    SmallRng::seed_from_u64(seed)
}

/// Relies on rand's `RngCore::next_u64`; nothing is promised of a random
/// draw beyond its type.
#[verifier::external_body]
fn next_u64(rng: &mut SmallRng) -> (r: u64) {
    rng.next_u64()
}

/// Relies on rand's `SliceRandom::shuffle`, a Fisher-Yates pass over the
/// slice: the result holds exactly the elements it started with, reordered.
#[verifier::external_body]
pub fn shuffle<T>(s: &mut Vec<T>, rng: &mut SmallRng)
    ensures
        final(s)@.len() == old(s)@.len(),
        final(s)@.to_multiset() == old(s)@.to_multiset(),
{
    s.shuffle(rng)
}

/// A uniform fixed-point draw from `[0, 1)`.
pub fn random(rng: &mut SmallRng) -> (r: i64)
    ensures
        0 <= r < FX_ONE,
{
    let x = next_u64(rng);
    (x % 4294967296u64) as i64
}

/// A point strictly inside the unit ball, by rejection; after too many
/// rejections the center is returned, which is in the ball as well.
pub fn random_in_unit_sphere(rng: &mut SmallRng) -> (p: Vec3)
    ensures
        v3_mag2(p) < FX_ONE as int,
{
    let mut tries: usize = 0;
    while tries < 64
        decreases 64 - tries,
    {
        let p = Vec3 {
            x: fx_sub(fx_mul(random(rng), FX_TWO), FX_ONE),
            y: fx_sub(fx_mul(random(rng), FX_TWO), FX_ONE),
            z: fx_sub(fx_mul(random(rng), FX_TWO), FX_ONE),
        };
        if p.mag2() < FX_ONE {
            return p;
        }
        tries = tries + 1;
    }
    let origin = Vec3::zero();
    proof {
        assert(v3_mag2(origin) == 0);
    }
    origin
}

/// A point strictly inside the unit disk, by rejection, with the same
/// fallback to the center.
pub fn random_in_unit_disk(rng: &mut SmallRng) -> (p: Vec2)
    ensures
        fx_add_s(
            fx_mul_s(p.x as int, p.x as int),
            fx_mul_s(p.y as int, p.y as int),
        ) < FX_ONE as int,
{
    let mut tries: usize = 0;
    while tries < 64
        decreases 64 - tries,
    {
        let x = fx_sub(fx_mul(random(rng), FX_TWO), FX_ONE);
        let y = fx_sub(fx_mul(random(rng), FX_TWO), FX_ONE);
        if fx_add(fx_mul(x, x), fx_mul(y, y)) < FX_ONE {
            return Vec2 { x, y };
        }
        tries = tries + 1;
    }
    Vec2 { x: 0, y: 0 }
}

/// Both coordinates lie in the unit interval.
pub open spec fn in_unit01(v: Vec2) -> bool {
    &&& 0 <= v.x < FX_ONE
    &&& 0 <= v.y < FX_ONE
}

/// The stratum width used by `stratified_samples` for `n` samples.
pub open spec fn strat_interval_s(n: int) -> int {
    fx_div_s(FX_ONE as int, sat64(n * (FX_ONE as int)))
}

/// The fixed first coordinate of the `k`-th stratified sample of `n`.
pub open spec fn strat_x_s(k: int, n: int) -> int {
    fx_mul_s(sat64(k * (FX_ONE as int)), strat_interval_s(n))
}

proof fn lemma_unit_product(a: int, nf: int)
    requires
        FX_ONE as int <= nf <= i64::MAX as int,
        0 <= a,
        a <= nf - 1 || (a == nf && nf == i64::MAX as int),
    ensures
        0 <= fx_mul_s(a, fx_div_s(FX_ONE as int, nf)),
        fx_mul_s(a, fx_div_s(FX_ONE as int, nf)) < FX_ONE as int,
{
    let sc = FX_ONE as int;
    let itv = (sc * sc) / nf;
    assert(sc * sc == 0x10000000000000000) by (nonlinear_arith)
        requires
            sc == 4294967296,
    ;
    vstd::arithmetic::div_mod::lemma_div_pos_is_pos(sc * sc, nf);
    vstd::arithmetic::div_mod::lemma_fundamental_div_mod(sc * sc, nf);
    assert(nf * itv <= sc * sc);
    assert(itv <= sc) by (nonlinear_arith)
        requires
            nf >= sc,
            nf * itv <= sc * sc,
            itv >= 0,
            sc > 0,
    ;
    assert(fx_div_s(sc, nf) == itv);
    if a <= nf - 1 {
        assert(a * itv <= nf * itv - itv) by (nonlinear_arith)
            requires
                a <= nf - 1,
                itv >= 0,
        ;
        assert(itv >= 1) by (nonlinear_arith)
            requires
                nf * itv <= sc * sc,
                nf <= i64::MAX as int,
                sc * sc == 0x10000000000000000,
                itv == (sc * sc) / nf,
                nf >= 1,
                nf * itv + (sc * sc) % nf == sc * sc,
                0 <= (sc * sc) % nf < nf,
        ;
        assert(a * itv <= sc * sc - 1);
        assert(a * itv >= 0) by (nonlinear_arith)
            requires
                a >= 0,
                itv >= 0,
        ;
        vstd::arithmetic::div_mod::lemma_div_is_ordered(a * itv, sc * sc - 1, sc);
        assert((sc * sc - 1) / sc == sc - 1) by (nonlinear_arith)
            requires
                sc == 4294967296,
        ;
        vstd::arithmetic::div_mod::lemma_div_pos_is_pos(a * itv, sc);
    } else {
        assert(itv == 2) by (nonlinear_arith)
            requires
                itv == (sc * sc) / nf,
                sc * sc == 0x10000000000000000,
                nf == i64::MAX as int,
                nf * itv + (sc * sc) % nf == sc * sc,
                0 <= (sc * sc) % nf < nf,
        ;
        assert(a * itv == 0xfffffffffffffffeint) by (nonlinear_arith)
            requires
                a == i64::MAX as int,
                itv == 2,
        ;
        assert(tz_div(a * itv, sc) == 0xfffffffffffffffeint / sc);
        assert(0xfffffffffffffffeint / sc == sc - 1) by (nonlinear_arith)
            requires
                sc == 4294967296,
        ;
    }
}

proof fn lemma_strat_operand(rnd: int, i: int, n: int)
    requires
        0 <= rnd < FX_ONE as int,
        0 <= i < n,
    ensures
        FX_ONE as int <= sat64(n * (FX_ONE as int)) <= i64::MAX as int,
        ({
            let a = fx_add_s(rnd, sat64(i * (FX_ONE as int)));
            let nf = sat64(n * (FX_ONE as int));
            0 <= a && (a <= nf - 1 || (a == nf && nf == i64::MAX as int))
        }),
        ({
            let a = sat64(i * (FX_ONE as int));
            let nf = sat64(n * (FX_ONE as int));
            0 <= a && (a <= nf - 1 || (a == nf && nf == i64::MAX as int))
        }),
{
    let sc = FX_ONE as int;
    assert(0 <= i * sc && (i + 1) * sc <= n * sc && i * sc + sc == (i + 1) * sc && sc <= n * sc)
        by (nonlinear_arith)
        requires
            0 <= i,
            i < n,
            sc == 4294967296,
    ;
}

/// `y` falls in the `j`-th of `n` equal strata of the unit interval.
pub open spec fn stratum_ok(y: int, j: int, n: int) -> bool {
    strat_x_s(j, n) <= y < strat_x_s(j + 1, n)
}

/// One value per stratum, in stratum order.
pub open spec fn stratified_ys(ys: Seq<i64>, n: int) -> bool {
    &&& ys.len() == n
    &&& forall|j: int| 0 <= j < n ==> stratum_ok((#[trigger] ys[j]) as int, j, n)
}

/// The second coordinates of a sample sequence, in order.
pub open spec fn ys_of(s: Seq<Vec2>) -> Seq<i64> {
    s.map_values(|v: Vec2| v.y)
}

/// One jittered draw lands in its own stratum: as long as `n` whole units
/// fit the raw range, `(rnd + j) / n` lies in `[j/n, (j+1)/n)` exactly.
proof fn lemma_stratum(rnd: int, j: int, n: int)
    requires
        0 <= rnd < FX_ONE as int,
        0 <= j < n,
        n * (FX_ONE as int) <= i64::MAX as int,
    ensures
        stratum_ok(
            fx_mul_s(fx_add_s(rnd, sat64(j * (FX_ONE as int))), strat_interval_s(n)),
            j,
            n,
        ),
{
    let sc = FX_ONE as int;
    let nf = n * sc;
    assert(sc <= nf && 0 <= j * sc && (j + 1) * sc <= nf && j * sc + sc == (j + 1) * sc) by (
    nonlinear_arith)
        requires
            0 <= j < n,
            sc == 4294967296,
            nf == n * sc,
    ;
    let q = (sc * sc) / nf;
    vstd::arithmetic::div_mod::lemma_fundamental_div_mod(sc * sc, nf);
    assert(1 <= q && q <= sc) by (nonlinear_arith)
        requires
            q * nf + (sc * sc) % nf == sc * sc,
            0 <= (sc * sc) % nf < nf,
            sc <= nf,
            nf <= i64::MAX as int,
            sc == 4294967296,
    ;
    assert(strat_interval_s(n) == q);
    let a = rnd + j * sc;
    assert(fx_add_s(rnd, sat64(j * sc)) == a);
    // the three products of interest, written as exact divisions by `sc`
    assert(j * sc * q == (j * q) * sc + 0) by (nonlinear_arith);
    vstd::arithmetic::div_mod::lemma_fundamental_div_mod_converse_div(j * sc * q, sc, j * q, 0);
    assert((j + 1) * sc * q == ((j + 1) * q) * sc + 0) by (nonlinear_arith);
    vstd::arithmetic::div_mod::lemma_fundamental_div_mod_converse_div(
        (j + 1) * sc * q,
        sc,
        (j + 1) * q,
        0,
    );
    assert(0 <= j * q && j * q <= (j + 1) * q && (j + 1) * q <= n * q) by (nonlinear_arith)
        requires
            0 <= j < n,
            1 <= q,
    ;
    assert(n * q <= sc) by (nonlinear_arith)
        requires
            q * nf + (sc * sc) % nf == sc * sc,
            0 <= (sc * sc) % nf,
            nf == n * sc,
            0 < n,
            1 <= q,
            sc == 4294967296,
    ;
    assert(strat_x_s(j, n) == j * q);
    assert(strat_x_s(j + 1, n) == (j + 1) * q);
    // the jittered product sits between the two stratum boundaries
    assert(j * sc * q <= a * q && a * q <= (j + 1) * sc * q - q) by (nonlinear_arith)
        requires
            j * sc <= a,
            a <= (j + 1) * sc - 1,
            1 <= q,
    ;
    vstd::arithmetic::div_mod::lemma_div_is_ordered(j * sc * q, a * q, sc);
    vstd::arithmetic::div_mod::lemma_div_is_ordered(a * q, (j + 1) * sc * q - q, sc);
    assert(((j + 1) * sc * q - q) / sc == (j + 1) * q - 1) by {
        assert((j + 1) * sc * q - q == ((j + 1) * q - 1) * sc + (sc - q)) by (nonlinear_arith);
        vstd::arithmetic::div_mod::lemma_fundamental_div_mod_converse_div(
            (j + 1) * sc * q - q,
            sc,
            (j + 1) * q - 1,
            sc - q,
        );
    }
    assert(a * q >= 0) by (nonlinear_arith)
        requires
            0 <= a,
            1 <= q,
    ;
    vstd::arithmetic::div_mod::lemma_div_pos_is_pos(a * q, sc);
    assert(fx_mul_s(a, q) == (a * q) / sc);
}

/// `n` jittered points: the `k`-th has first coordinate `k / n` and a second
/// coordinate drawn uniformly in its stratum, the strata shuffled so that
/// pairing two such sequences does not correlate them. The second
/// coordinates are, as a multiset, one value per stratum.
pub fn stratified_samples(samples: usize, rng: &mut SmallRng) -> (r: Vec<Vec2>)
    ensures
        r@.len() == samples as int,
        forall|k: int| 0 <= k < samples as int ==> in_unit01(#[trigger] r@[k]),
        forall|k: int|
            0 <= k < samples as int ==> (#[trigger] r@[k]).x as int == strat_x_s(
                k,
                samples as int,
            ),
        (samples as int) * (FX_ONE as int) <= i64::MAX as int ==> exists|ys: Seq<i64>|
            #[trigger] stratified_ys(ys, samples as int) && ys_of(r@).to_multiset()
                == ys.to_multiset(),
{
    let nf = fx_from_usize(samples);
    let interval = fx_div(FX_ONE, nf);
    let mut ys: Vec<i64> = Vec::new();
    let mut i: usize = 0;
    while i < samples
        invariant
            i <= samples,
            ys@.len() == i as int,
            nf as int == sat64((samples as int) * (FX_ONE as int)),
            interval as int == strat_interval_s(samples as int),
            forall|j: int| 0 <= j < i as int ==> 0 <= #[trigger] ys@[j] < FX_ONE,
            (samples as int) * (FX_ONE as int) <= i64::MAX as int ==> forall|j: int|
                0 <= j < i as int ==> stratum_ok((#[trigger] ys@[j]) as int, j, samples as int),
        decreases samples - i,
    {
        let rnd = random(rng);
        let ifx = fx_from_usize(i);
        let a = fx_add(rnd, ifx);
        proof {
            lemma_strat_operand(rnd as int, i as int, samples as int);
            lemma_unit_product(a as int, nf as int);
            if (samples as int) * (FX_ONE as int) <= i64::MAX as int {
                lemma_stratum(rnd as int, i as int, samples as int);
            }
        }
        let y = fx_mul(a, interval);
        ys.push(y);
        i = i + 1;
    }
    let ghost ys0 = ys@;
    shuffle(&mut ys, rng);
    proof {
        broadcast use vstd::seq_lib::group_to_multiset_ensures;

        assert forall|j: int| 0 <= j < ys@.len() implies 0 <= #[trigger] ys@[j] < FX_ONE by {
            let v = ys@[j];
            assert(ys@.contains(v));
            assert(ys@.to_multiset().count(v) > 0);
            assert(ys0.to_multiset().count(v) > 0);
            assert(ys0.contains(v));
            let jj = choose|jj: int| 0 <= jj < ys0.len() && ys0[jj] == v;
            assert(0 <= ys0[jj] < FX_ONE);
        }
    }
    let mut out: Vec<Vec2> = Vec::new();
    let mut k: usize = 0;
    while k < samples
        invariant
            k <= samples,
            out@.len() == k as int,
            ys@.len() == samples as int,
            nf as int == sat64((samples as int) * (FX_ONE as int)),
            interval as int == strat_interval_s(samples as int),
            forall|j: int| 0 <= j < samples as int ==> 0 <= #[trigger] ys@[j] < FX_ONE,
            forall|j: int| 0 <= j < k as int ==> in_unit01(#[trigger] out@[j]),
            forall|j: int|
                0 <= j < k as int ==> (#[trigger] out@[j]).x as int == strat_x_s(
                    j,
                    samples as int,
                ),
            forall|j: int| 0 <= j < k as int ==> (#[trigger] out@[j]).y == ys@[j],
        decreases samples - k,
    {
        let kfx = fx_from_usize(k);
        proof {
            lemma_strat_operand(0, k as int, samples as int);
            lemma_unit_product(kfx as int, nf as int);
        }
        let x = fx_mul(kfx, interval);
        let y = ys[k];
        out.push(Vec2 { x, y });
        k = k + 1;
    }
    proof {
        if (samples as int) * (FX_ONE as int) <= i64::MAX as int {
            assert(stratified_ys(ys0, samples as int));
            assert(ys_of(out@) =~= ys@);
            assert(stratified_ys(ys0, samples as int) && ys_of(out@).to_multiset()
                == ys0.to_multiset());
        }
    }
    out
}

/// What the polar map sends a unit-square sample to: radius is the square
/// root of one coordinate, angle a full turn of the other.
pub open spec fn disk_map_s(v: Vec2) -> Vec2 {
    let cs = sincos_s(v.x as int);
    let rr = fx_sqrt_s(v.y as int);
    Vec2 { x: fx_mul_s(rr, cs.0) as i64, y: fx_mul_s(rr, cs.1) as i64 }
}

proof fn lemma_disk_scale(rr: int, c: int, s: int)
    requires
        0 <= rr < FX_ONE as int,
        c * c + s * s <= (FX_ONE as int) * (FX_ONE as int),
    ensures
        fx_mul_s(rr, c) * fx_mul_s(rr, c) + fx_mul_s(rr, s) * fx_mul_s(rr, s) < (FX_ONE as int)
            * (FX_ONE as int),
{
    let sc = FX_ONE as int;
    let px = fx_mul_s(rr, c);
    let py = fx_mul_s(rr, s);
    lemma_fx_shrink(rr, c);
    lemma_fx_shrink(rr, s);
    assert(0 <= c * c && 0 <= s * s) by (nonlinear_arith);
    assert(px * px * (sc * sc) + py * py * (sc * sc) <= (rr * rr) * (sc * sc)) by (
    nonlinear_arith)
        requires
            px * px * (sc * sc) <= (rr * rr) * (c * c),
            py * py * (sc * sc) <= (rr * rr) * (s * s),
            c * c + s * s <= sc * sc,
            0 <= rr,
            0 <= c * c,
            0 <= s * s,
            sc > 0,
    ;
    assert((rr * rr) * (sc * sc) <= (sc - 1) * (sc - 1) * (sc * sc)) by (nonlinear_arith)
        requires
            0 <= rr <= sc - 1,
            sc > 0,
    ;
    assert(px * px + py * py < sc * sc) by (nonlinear_arith)
        requires
            px * px * (sc * sc) + py * py * (sc * sc) <= (sc - 1) * (sc - 1) * (sc * sc),
            sc > 1,
    ;
}

proof fn lemma_fx_sqrt_lt_one(y: int)
    requires
        0 <= y < FX_ONE as int,
    ensures
        0 <= fx_sqrt_s(y) < FX_ONE as int,
{
    let sc = FX_ONE as int;
    if y > 0 {
        lemma_sqrt_floor_bounds(y * sc);
        assert(y * sc >= 0 && y * sc < sc * sc) by (nonlinear_arith)
            requires
                0 <= y < sc,
                sc > 0,
        ;
        let rr = sqrt_floor(y * sc);
        assert(rr < sc) by (nonlinear_arith)
            requires
                rr >= 0,
                rr * rr <= y * sc,
                y * sc < sc * sc,
                sc > 0,
        ;
    }
}

/// The scaled coordinate keeps its square below the product of the squares:
/// `|fx_mul(a, b)| * one <= |a * b|`.
proof fn lemma_fx_shrink(a: int, b: int)
    requires
        0 <= a,
    ensures
        fx_mul_s(a, b) * fx_mul_s(a, b) * ((FX_ONE as int) * (FX_ONE as int)) <= (a * a) * (b * b),
{
    let sc = FX_ONE as int;
    let m = abs_i(a * b);
    vstd::arithmetic::div_mod::lemma_fundamental_div_mod(m, sc);
    vstd::arithmetic::div_mod::lemma_div_pos_is_pos(m, sc);
    let q = m / sc;
    assert(q * sc <= m);
    assert(fx_mul_s(a, b) == sat64(tz_div(a * b, sc)));
    assert(tz_div(a * b, sc) == q || tz_div(a * b, sc) == -q);
    let t = fx_mul_s(a, b);
    assert(t == q || t == -q || (t == i64::MAX as int && q > t) || (t == i64::MIN as int && -q < t
    ));
    assert(t * t <= q * q) by (nonlinear_arith)
        requires
            t == q || t == -q || (t == i64::MAX as int && q > t >= 0) || (t == i64::MIN as int
                && -q < t <= 0),
    ;
    assert(q * q * (sc * sc) <= m * m) by (nonlinear_arith)
        requires
            0 <= q,
            0 <= m,
            q * sc <= m,
            sc > 0,
    ;
    assert(m * m == (a * b) * (a * b)) by (nonlinear_arith)
        requires
            m == abs_i(a * b),
    ;
    assert((a * b) * (a * b) == (a * a) * (b * b)) by (nonlinear_arith);
    assert(t * t * (sc * sc) <= q * q * (sc * sc)) by (nonlinear_arith)
        requires
            t * t <= q * q,
            sc * sc > 0,
    ;
}

/// Scaling a point strictly inside the unit disk by a nonnegative radius
/// lands inside the disk of that radius, and strictly inside it whenever the
/// radius is positive.
pub proof fn lemma_scale_into_disk(radius: int, sx: int, sy: int)
    requires
        radius >= 0,
        sx * sx + sy * sy < (FX_ONE as int) * (FX_ONE as int),
    ensures
        fx_mul_s(radius, sx) * fx_mul_s(radius, sx) + fx_mul_s(radius, sy) * fx_mul_s(radius, sy)
            <= radius * radius,
        radius >= 1 ==> fx_mul_s(radius, sx) * fx_mul_s(radius, sx) + fx_mul_s(radius, sy)
            * fx_mul_s(radius, sy) < radius * radius,
{
    let sc = FX_ONE as int;
    let a = fx_mul_s(radius, sx);
    let b = fx_mul_s(radius, sy);
    lemma_fx_shrink(radius, sx);
    lemma_fx_shrink(radius, sy);
    assert(0 <= sx * sx && 0 <= sy * sy) by (nonlinear_arith);
    assert(a * a * (sc * sc) + b * b * (sc * sc) <= (radius * radius) * (sc * sc) - radius
        * radius) by (nonlinear_arith)
        requires
            a * a * (sc * sc) <= (radius * radius) * (sx * sx),
            b * b * (sc * sc) <= (radius * radius) * (sy * sy),
            sx * sx + sy * sy <= sc * sc - 1,
            0 <= radius,
            0 <= sx * sx,
            0 <= sy * sy,
            sc > 0,
    ;
    assert(a * a + b * b <= radius * radius) by (nonlinear_arith)
        requires
            a * a * (sc * sc) + b * b * (sc * sc) <= (radius * radius) * (sc * sc) - radius
                * radius,
            0 <= radius,
            sc * sc > 0,
    ;
    if radius >= 1 {
        assert(a * a + b * b < radius * radius) by (nonlinear_arith)
            requires
                a * a * (sc * sc) + b * b * (sc * sc) <= (radius * radius) * (sc * sc) - radius
                    * radius,
                radius >= 1,
                sc * sc > 0,
        ;
    }
}

/// Stratified samples pushed through the polar map onto the unit disk; every
/// returned point satisfies `x^2 + y^2 < 1` exactly.
pub fn stratified_samples_in_disk(samples: usize, rng: &mut SmallRng) -> (r: Vec<Vec2>)
    ensures
        r@.len() == samples as int,
        forall|k: int|
            0 <= k < samples as int ==> ((#[trigger] r@[k]).x as int) * (r@[k].x as int) + (
            r@[k].y as int) * (r@[k].y as int) < (FX_ONE as int) * (FX_ONE as int),
{
    let base = stratified_samples(samples, rng);
    let mut out: Vec<Vec2> = Vec::new();
    let mut k: usize = 0;
    while k < samples
        invariant
            k <= samples,
            out@.len() == k as int,
            base@.len() == samples as int,
            forall|j: int| 0 <= j < samples as int ==> in_unit01(#[trigger] base@[j]),
            forall|j: int|
                0 <= j < k as int ==> ((#[trigger] out@[j]).x as int) * (out@[j].x as int) + (
                out@[j].y as int) * (out@[j].y as int) < (FX_ONE as int) * (FX_ONE as int),
        decreases samples - k,
    {
        let v = base[k];
        let cs = fx_sincos_turn(v.x);
        let rr = fx_sqrt(v.y);
        let p = Vec2 { x: fx_mul(rr, cs.0), y: fx_mul(rr, cs.1) };
        proof {
            lemma_fx_sqrt_lt_one(v.y as int);
            lemma_disk_scale(rr as int, cs.0 as int, cs.1 as int);
            assert(p == disk_map_s(v));
        }
        out.push(p);
        k = k + 1;
    }
    out
}

} // verus!
