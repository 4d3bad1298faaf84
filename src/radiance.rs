use vstd::prelude::*;
use vstd::math::abs;
use crate::types::{Fraction, HazeError, Image, Rgb};

verus! {

/// The transmission used at a pixel, `max(t / 255, t0)`, as a fraction
/// `(num, den)` of the form that attains the maximum.
pub open spec fn effective_transmission(t: int, t0: Fraction) -> (int, int) {
    if t * t0.den >= 255 * t0.num {
        (t, 255)
    } else {
        (t0.num as int, t0.den as int)
    }
}

/// One recovered channel on the `0..=255` scale. With the source sample `i`,
/// the atmospheric sample `a` and the transmission `n / d`, the radiance is
/// `(i - a) / (n / d) + a`, that is `x / n` with `x = (i - a) * d + a * n`;
/// it is clamped to `[0, 255]` and rounded to the nearest integer, halves up.
pub open spec fn recover_channel(i: int, a: int, n: int, d: int) -> int {
    round_clamped((i - a) * d + a * n, n)
}

/// The rational `x / n` clamped to `[0, 255]` and rounded to the nearest
/// integer, halves up.
pub open spec fn round_clamped(x: int, n: int) -> int {
    if x <= 0 {
        0
    } else if x >= 255 * n {
        255
    } else {
        (2 * x + n) / (2 * n)
    }
}

/// The recovered channel of sample `i` under atmospheric sample `a`, with the
/// transmission of map value `t` floored at `t0`.
pub open spec fn radiance(i: u8, a: u8, t: u8, t0: Fraction) -> int {
    let e = effective_transmission(t as int, t0);
    recover_channel(i as int, a as int, e.0, e.1)
}

/// `out` holds, three samples per pixel, the recovered red, green and blue
/// of every pixel.
pub open spec fn is_reconstruction(pixels: Seq<Rgb>, a: Rgb, t_map: Seq<u8>, t0: Fraction, out: Seq<u8>) -> bool {
    &&& out.len() == 3 * pixels.len()
    &&& forall|i: int|
        0 <= i < pixels.len() ==> {
            &&& #[trigger] out[3 * i] as int == radiance(pixels[i].r, a.r, t_map[i], t0)
            &&& out[3 * i + 1] as int == radiance(pixels[i].g, a.g, t_map[i], t0)
            &&& out[3 * i + 2] as int == radiance(pixels[i].b, a.b, t_map[i], t0)
        }
}

/// Computes `recover_channel`.
fn recover(i: u8, a: u8, n: u32, d: u32) -> (r: u8)
    requires
        n > 0,
    ensures
        r as int == recover_channel(i as int, a as int, n as int, d as int),
{
    let (ii, ai, ni, di) = (i as i64, a as i64, n as i64, d as i64);
    proof {
        assert(-255 * di <= (ii - ai) * di <= 255 * di) by (nonlinear_arith)
            requires -255 <= ii - ai <= 255, 0 <= di;
        assert(0 <= ai * ni <= 255 * ni) by (nonlinear_arith)
            requires 0 <= ai <= 255, 0 <= ni;
    }
    let x = (ii - ai) * di + ai * ni;
    if x <= 0 {
        0
    } else if x >= 255 * ni {
        255
    } else {
        proof {
            let (xx, nn) = (x as int, ni as int);
            vstd::arithmetic::div_mod::lemma_fundamental_div_mod(2 * xx + nn, 2 * nn);
            vstd::arithmetic::div_mod::lemma_mod_pos_bound(2 * xx + nn, 2 * nn);
            let q = (2 * xx + nn) / (2 * nn);
            let m = (2 * xx + nn) % (2 * nn);
            assert(0 <= q <= 255) by (nonlinear_arith)
                requires 0 < xx < 255 * nn, 0 < nn, 2 * xx + nn == 2 * nn * q + m, 0 <= m < 2 * nn;
        }
        ((2 * x + ni) / (2 * ni)) as u8
    }
}

/// Computes `radiance` for one pixel: red, green and blue.
fn recover_pixel(p: Rgb, a: Rgb, t: u8, t0: Fraction) -> (r: (u8, u8, u8))
    requires
        t0.num > 0,
    ensures
        r.0 as int == radiance(p.r, a.r, t, t0),
        r.1 as int == radiance(p.g, a.g, t, t0),
        r.2 as int == radiance(p.b, a.b, t, t0),
{
    proof {
        assert(t as int * t0.den as int <= 255 * 0xffff_ffff) by (nonlinear_arith)
            requires 0 <= t <= 255, 0 <= t0.den <= 0xffff_ffff;
        assert(t as int * t0.den as int >= 255 * t0.num as int ==> t > 0) by (nonlinear_arith)
            requires 0 <= t, t0.num > 0;
    }
    let (n, d) = if t as u64 * t0.den as u64 >= 255 * t0.num as u64 {
        (t as u32, 255u32)
    } else {
        (t0.num, t0.den)
    };
    (recover(p.r, a.r, n, d), recover(p.g, a.g, n, d), recover(p.b, a.b, n, d))
}

/// Inverts the haze model at every pixel, from the atmospheric light, the
/// transmission map and the transmission floor `t_0`. The result holds three
/// samples per pixel (red, green, blue), in the pixels' order.
pub fn reconstruct(image: &Image, atmospheric: &Rgb, transmission_map: &Vec<u8>, t_0: Fraction) -> (r: Result<Vec<u8>, HazeError>)
    ensures
        match r {
            Ok(out) => is_reconstruction(image.pixels@, *atmospheric, transmission_map@, t_0, out@),
            Err(e) => if !image.wf() || transmission_map@.len() != image.pixels@.len() {
                e == HazeError::InvalidDimensions
            } else {
                e == HazeError::InvalidParameter && !t_0.in_open_unit()
            },
        },
        r.is_ok() <==> image.wf() && transmission_map@.len() == image.pixels@.len()
            && t_0.in_open_unit(),
{
    if !image.is_valid() || transmission_map.len() != image.pixels.len() {
        return Err(HazeError::InvalidDimensions);
    }
    if !(0 < t_0.num && t_0.num < t_0.den) {
        return Err(HazeError::InvalidParameter);
    }
    let n = image.pixels.len();
    let mut out: Vec<u8> = Vec::new();
    let mut i: usize = 0;
    while i < n
        invariant
            n == image.pixels@.len(),
            n == transmission_map@.len(),
            t_0.in_open_unit(),
            i <= n,
            out@.len() == 3 * i,
            forall|j: int|
                0 <= j < i ==> {
                    &&& #[trigger] out@[3 * j] as int == radiance(image.pixels@[j].r, atmospheric.r, transmission_map@[j], t_0)
                    &&& out@[3 * j + 1] as int == radiance(image.pixels@[j].g, atmospheric.g, transmission_map@[j], t_0)
                    &&& out@[3 * j + 2] as int == radiance(image.pixels@[j].b, atmospheric.b, transmission_map@[j], t_0)
                },
        decreases n - i,
    {
        let (r, g, b) = recover_pixel(image.pixels[i], *atmospheric, transmission_map[i], t_0);
        let ghost before = out@;
        out.push(r);
        out.push(g);
        out.push(b);
        proof {
            assert forall|j: int| 0 <= j <= i implies {
                &&& #[trigger] out@[3 * j] as int == radiance(image.pixels@[j].r, atmospheric.r, transmission_map@[j], t_0)
                &&& out@[3 * j + 1] as int == radiance(image.pixels@[j].g, atmospheric.g, transmission_map@[j], t_0)
                &&& out@[3 * j + 2] as int == radiance(image.pixels@[j].b, atmospheric.b, transmission_map@[j], t_0)
            } by {
                if j < i {
                    assert(out@[3 * j] == before[3 * j]);
                    assert(out@[3 * j + 1] == before[3 * j + 1]);
                    assert(out@[3 * j + 2] == before[3 * j + 2]);
                }
            }
        }
        i = i + 1;
    }
    proof {
        assert(is_reconstruction(image.pixels@, *atmospheric, transmission_map@, t_0, out@));
    }
    Ok(out)
}

/// Spreads each map value over three equal samples, for display as an RGB image.
pub fn transmission_rgb(t_map: &Vec<u8>) -> (r: Vec<u8>)
    ensures
        r@.len() == 3 * t_map@.len(),
        forall|i: int|
            0 <= i < t_map@.len() ==> {
                &&& #[trigger] r@[3 * i] == t_map@[i]
                &&& r@[3 * i + 1] == t_map@[i]
                &&& r@[3 * i + 2] == t_map@[i]
            },
{
    let mut out: Vec<u8> = Vec::new();
    let mut i: usize = 0;
    while i < t_map.len()
        invariant
            i <= t_map@.len(),
            out@.len() == 3 * i,
            forall|j: int|
                0 <= j < i ==> {
                    &&& #[trigger] out@[3 * j] == t_map@[j]
                    &&& out@[3 * j + 1] == t_map@[j]
                    &&& out@[3 * j + 2] == t_map@[j]
                },
        decreases t_map@.len() - i,
    {
        let c = t_map[i];
        let ghost before = out@;
        out.push(c);
        out.push(c);
        out.push(c);
        proof {
            assert forall|j: int| 0 <= j <= i implies {
                &&& #[trigger] out@[3 * j] == t_map@[j]
                &&& out@[3 * j + 1] == t_map@[j]
                &&& out@[3 * j + 2] == t_map@[j]
            } by {
                if j < i {
                    assert(out@[3 * j] == before[3 * j]);
                    assert(out@[3 * j + 1] == before[3 * j + 1]);
                    assert(out@[3 * j + 2] == before[3 * j + 2]);
                }
            }
        }
        i = i + 1;
    }
    out
}

/// Every recovered sample lies in `[0, 255]`, whatever the source sample,
/// the atmospheric light and the transmission map value.
pub proof fn lemma_radiance_in_range(i: u8, a: u8, t: u8, t0: Fraction)
    requires
        t0.in_open_unit(),
    ensures
        0 <= radiance(i, a, t, t0) <= 255,
{
    let e = effective_transmission(t as int, t0);
    assert(e.0 > 0) by (nonlinear_arith)
        requires e == effective_transmission(t as int, t0), t0.num > 0, t >= 0;
    lemma_round_clamped_in_range((i - a) * e.1 + a * e.0, e.0);
}

proof fn lemma_round_clamped_in_range(x: int, n: int)
    requires
        n > 0,
    ensures
        0 <= round_clamped(x, n) <= 255,
{
    if 0 < x < 255 * n {
        let top = 512 * n - 1;
        assert((x * 2 + n) * (2 * n) <= top * (2 * n)) by (nonlinear_arith)
            requires 0 < x < 255 * n, n > 0, top == 512 * n - 1;
        lemma_floor_le(x * 2 + n, 2 * n, top, 2 * n);
        vstd::arithmetic::div_mod::lemma_fundamental_div_mod_converse(top, 2 * n, 255, 2 * n - 1);
        assert(2 * x + n > 0);
        vstd::arithmetic::div_mod::lemma_div_pos_is_pos(2 * x + n, 2 * n);
    }
}

/// `floor(p / q) <= floor(u / v)` whenever `p / q <= u / v`.
proof fn lemma_floor_le(p: int, q: int, u: int, v: int)
    requires
        q > 0,
        v > 0,
        p * v <= u * q,
    ensures
        p / q <= u / v,
{
    vstd::arithmetic::div_mod::lemma_fundamental_div_mod(p, q);
    vstd::arithmetic::div_mod::lemma_fundamental_div_mod(u, v);
    vstd::arithmetic::div_mod::lemma_mod_division_less_than_divisor(p, q);
    vstd::arithmetic::div_mod::lemma_mod_division_less_than_divisor(u, v);
    let (a, b) = (p / q, u / v);
    let (r, s) = (p % q, u % v);
    assert(a <= b) by (nonlinear_arith)
        requires q > 0, v > 0, p * v <= u * q, p == q * a + r, 0 <= r < q, u == v * b + s, 0 <= s < v;
}

/// `round_clamped` grows with the rational `x / n`.
proof fn lemma_round_clamped_monotone(x1: int, n1: int, x2: int, n2: int)
    requires
        n1 > 0,
        n2 > 0,
        x1 * n2 <= x2 * n1,
    ensures
        round_clamped(x1, n1) <= round_clamped(x2, n2),
{
    lemma_round_clamped_in_range(x1, n1);
    lemma_round_clamped_in_range(x2, n2);
    if x1 > 0 && x2 < 255 * n2 {
        assert(x2 > 0 && x1 < 255 * n1) by (nonlinear_arith)
            requires n1 > 0, n2 > 0, x1 * n2 <= x2 * n1, x1 > 0, x2 < 255 * n2;
        assert((2 * x1 + n1) * (2 * n2) <= (2 * x2 + n2) * (2 * n1)) by (nonlinear_arith)
            requires x1 * n2 <= x2 * n1;
        lemma_floor_le(2 * x1 + n1, 2 * n1, 2 * x2 + n2, 2 * n2);
    }
}

/// An integer sample, read as `i * n / n`, comes back unchanged.
proof fn lemma_round_clamped_exact(i: int, n: int)
    requires
        0 <= i <= 255,
        n > 0,
    ensures
        round_clamped(i * n, n) == i,
{
    if 0 < i < 255 {
        assert(i * n > 0 && i * n < 255 * n) by (nonlinear_arith)
            requires 0 < i < 255, n > 0;
        assert(2 * (i * n) + n == (2 * n) * i + n) by (nonlinear_arith);
        vstd::arithmetic::div_mod::lemma_fundamental_div_mod_converse(2 * (i * n) + n, 2 * n, i, n);
    } else if i == 0 {
        assert(i * n == 0);
    } else {
        assert(i * n == 255 * n);
    }
}

/// With a transmission map that is 255 everywhere (no haze, `t = 1`), the
/// reconstruction gives back the source image exactly, whatever the
/// atmospheric light.
pub proof fn lemma_clear_air_identity(pixels: Seq<Rgb>, a: Rgb, t_map: Seq<u8>, t0: Fraction, out: Seq<u8>)
    requires
        t0.in_open_unit(),
        t_map.len() == pixels.len(),
        forall|i: int| 0 <= i < t_map.len() ==> #[trigger] t_map[i] == 255,
        is_reconstruction(pixels, a, t_map, t0, out),
    ensures
        forall|i: int|
            0 <= i < pixels.len() ==> {
                &&& #[trigger] out[3 * i] == pixels[i].r
                &&& out[3 * i + 1] == pixels[i].g
                &&& out[3 * i + 2] == pixels[i].b
            },
{
    assert forall|i: int| 0 <= i < pixels.len() implies {
        &&& #[trigger] out[3 * i] == pixels[i].r
        &&& out[3 * i + 1] == pixels[i].g
        &&& out[3 * i + 2] == pixels[i].b
    } by {
        assert(t_map[i] == 255);
        assert(255 * t0.den >= 255 * t0.num) by (nonlinear_arith)
            requires t0.num < t0.den;
        lemma_clear_channel(pixels[i].r as int, a.r as int);
        lemma_clear_channel(pixels[i].g as int, a.g as int);
        lemma_clear_channel(pixels[i].b as int, a.b as int);
        assert(effective_transmission(255, t0) == (255int, 255int));
        assert(radiance(pixels[i].r, a.r, t_map[i], t0) == pixels[i].r);
        assert(out[3 * i] as int == radiance(pixels[i].r, a.r, t_map[i], t0));
    }
}

proof fn lemma_clear_channel(i: int, a: int)
    requires
        0 <= i <= 255,
    ensures
        recover_channel(i, a, 255, 255) == i,
{
    assert((i - a) * 255 + a * 255 == i * 255) by (nonlinear_arith);
    lemma_round_clamped_exact(i, 255);
}

/// `f <= g` as fractions with positive denominators.
pub open spec fn frac_le(f: Fraction, g: Fraction) -> bool {
    f.num as int * g.den as int <= g.num as int * f.den as int
}

/// A higher floor `t0` never lowers the transmission used at a pixel, and
/// never moves a recovered sample further from its source sample.
pub proof fn lemma_floor_monotone(i: u8, a: u8, t: u8, t0: Fraction, t1: Fraction)
    requires
        t0.in_open_unit(),
        t1.in_open_unit(),
        frac_le(t0, t1),
    ensures
        ({
            let e0 = effective_transmission(t as int, t0);
            let e1 = effective_transmission(t as int, t1);
            e0.0 * e1.1 <= e1.0 * e0.1
        }),
        abs(radiance(i, a, t, t1) - i) <= abs(radiance(i, a, t, t0) - i),
{
    let (n0, d0) = effective_transmission(t as int, t0);
    let (n1, d1) = effective_transmission(t as int, t1);
    let (tt, lo_n, lo_d, hi_n, hi_d) = (t as int, t0.num as int, t0.den as int, t1.num as int, t1.den as int);
    assert(n0 * d1 <= n1 * d0) by (nonlinear_arith)
        requires
            0 < lo_n < lo_d, 0 < hi_n < hi_d, lo_n * hi_d <= hi_n * lo_d, 0 <= tt <= 255,
            (n0, d0) == (if tt * lo_d >= 255 * lo_n { (tt, 255) } else { (lo_n, lo_d) }),
            (n1, d1) == (if tt * hi_d >= 255 * hi_n { (tt, 255) } else { (hi_n, hi_d) });
    assert(0 < n0 <= d0 && 0 < n1 <= d1) by (nonlinear_arith)
        requires
            0 < lo_n < lo_d, 0 < hi_n < hi_d, 0 <= tt <= 255,
            (n0, d0) == (if tt * lo_d >= 255 * lo_n { (tt, 255) } else { (lo_n, lo_d) }),
            (n1, d1) == (if tt * hi_d >= 255 * hi_n { (tt, 255) } else { (hi_n, hi_d) });
    let (ii, aa) = (i as int, a as int);
    let x0 = (ii - aa) * d0 + aa * n0;
    let x1 = (ii - aa) * d1 + aa * n1;
    lemma_round_clamped_exact(ii, n0);
    lemma_round_clamped_exact(ii, n1);
    if ii >= aa {
        assert(x1 * n0 <= x0 * n1 && (ii * n1) * n1 <= x1 * n1) by (nonlinear_arith)
            requires ii >= aa, aa >= 0, n0 * d1 <= n1 * d0, 0 < n1 <= d1, n0 > 0,
                x0 == (ii - aa) * d0 + aa * n0, x1 == (ii - aa) * d1 + aa * n1;
        lemma_round_clamped_monotone(x1, n1, x0, n0);
        lemma_round_clamped_monotone(ii * n1, n1, x1, n1);
    } else {
        assert(x0 * n1 <= x1 * n0 && x1 * n1 <= (ii * n1) * n1) by (nonlinear_arith)
            requires ii < aa, aa >= 0, n0 * d1 <= n1 * d0, 0 < n1 <= d1, n0 > 0,
                x0 == (ii - aa) * d0 + aa * n0, x1 == (ii - aa) * d1 + aa * n1;
        lemma_round_clamped_monotone(x0, n0, x1, n1);
        lemma_round_clamped_monotone(x1, n1, ii * n1, n1);
    }
}

} // verus!
