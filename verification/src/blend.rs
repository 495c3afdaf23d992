//! The blend-mode algebra used when compositing layers.
//!
//! Channels are eight-bit. The algebra is exact integer arithmetic over
//! values scaled by 255: a channel value c stands for the real c / 255, and
//! a mode's per-channel result is kept scaled by 255 * 255 until the final
//! composite division. Every result is proven to lie back in 0..=255, so
//! the conversion back to eight bits never truncates.

use vstd::prelude::*;
use crate::artifact::{ImageBuf, ImageView, Pixel};

verus! {

/// One unit: the scaled value of 1.0 in eight-bit channel terms.
pub const UNIT: u32 = 255;

/// UNIT squared: the scaled value of 1.0 for per-channel mode results.
pub const UNIT_SQ: u32 = 65025;

/// The per-pixel RGB combination applied before alpha compositing.
#[derive(Clone, Copy, Debug, PartialEq, Eq, Structural)]
pub enum BlendMode {
    Normal,
    Multiply,
    Screen,
    Overlay,
    Darken,
    Lighten,
    ColorDodge,
    ColorBurn,
    HardLight,
    SoftLight,
    Difference,
    Exclusion,
}

pub open spec fn imin(a: int, b: int) -> int {
    if a <= b {
        a
    } else {
        b
    }
}

pub open spec fn imax(a: int, b: int) -> int {
    if a >= b {
        a
    } else {
        b
    }
}

pub open spec fn iabs(a: int) -> int {
    if a >= 0 {
        a
    } else {
        -a
    }
}

/// The integer square root: the largest s with s * s <= n.
pub open spec fn spec_isqrt(n: int) -> int
    decreases n,
{
    if n <= 0 {
        0
    } else {
        let r = spec_isqrt(n - 1);
        if (r + 1) * (r + 1) <= n {
            r + 1
        } else {
            r
        }
    }
}

proof fn lemma_isqrt_bounds(n: int)
    requires
        n >= 0,
    ensures
        0 <= spec_isqrt(n),
        spec_isqrt(n) * spec_isqrt(n) <= n,
        n < (spec_isqrt(n) + 1) * (spec_isqrt(n) + 1),
    decreases n,
{
    if n > 0 {
        lemma_isqrt_bounds(n - 1);
        let r = spec_isqrt(n - 1);
        if (r + 1) * (r + 1) <= n {
            assert(n < ((r + 1) + 1) * ((r + 1) + 1)) by (nonlinear_arith)
                requires
                    n - 1 < (r + 1) * (r + 1),
                    0 <= r,
            ;
        }
    }
}

proof fn lemma_isqrt_unique(n: int, s: int)
    requires
        n >= 0,
        s >= 0,
        s * s <= n,
        n < (s + 1) * (s + 1),
    ensures
        s == spec_isqrt(n),
{
    lemma_isqrt_bounds(n);
    let q = spec_isqrt(n);
    if s < q {
        assert((s + 1) * (s + 1) <= q * q) by (nonlinear_arith)
            requires
                0 <= s,
                s + 1 <= q,
        ;
        assert(q * q <= n);
    }
    if q < s {
        assert((q + 1) * (q + 1) <= s * s) by (nonlinear_arith)
            requires
                0 <= q,
                q + 1 <= s,
        ;
    }
}

/// The integer square root, by upward search; inputs stay small.
fn isqrt(n: u32) -> (r: u32)
    requires
        n <= UNIT_SQ,
    ensures
        r as int == spec_isqrt(n as int),
        r <= UNIT,
{
    let mut s: u32 = 0;
    let mut sq_next: u32 = 1;
    while sq_next <= n
        invariant
            n <= UNIT_SQ,
            s <= UNIT,
            (s as int) * (s as int) <= n,
            sq_next as int == ((s + 1) as int) * ((s + 1) as int),
        decreases n - s,
    {
        proof {
            assert((s as int) + 1 <= UNIT) by (nonlinear_arith)
                requires
                    ((s + 1) as int) * ((s + 1) as int) <= 65025,
                    0 <= s,
            ;
            assert(((s + 2) as int) * ((s + 2) as int) <= 66049) by (nonlinear_arith)
                requires
                    (s as int) + 1 <= 255,
                    0 <= s,
            ;
            assert((s as int) + 1 <= n) by (nonlinear_arith)
                requires
                    ((s + 1) as int) * ((s + 1) as int) <= n,
                    0 <= s,
            ;
        }
        s = s + 1;
        sq_next = (s + 1) * (s + 1);
    }
    proof {
        lemma_isqrt_unique(n as int, s as int);
    }
    s
}

/// The darkening curve used by soft light for dark base channels, scaled
/// by 255: the cubic ((16 b - 12) b + 4) b of the unit-interval algebra.
pub open spec fn soft_light_dark_curve(b: int) -> int {
    ((16 * b - 3060) * b + 260100) * b / 65025
}

/// The D(x) helper of the soft-light formula, scaled by 255: the cubic
/// curve below one quarter, the square root above it.
pub open spec fn soft_light_d(b: int) -> int {
    if b <= 63 {
        soft_light_dark_curve(b)
    } else {
        spec_isqrt(255 * b)
    }
}

/// The per-channel formula of each mode, over channels scaled by 255,
/// with the result scaled by 255 * 255.  Divisions are floor divisions of
/// the exact rational values.
pub open spec fn channel_formula(mode: BlendMode, b: int, t: int) -> int {
    match mode {
        BlendMode::Normal => 255 * t,
        BlendMode::Multiply => b * t,
        BlendMode::Screen => 65025 - (255 - b) * (255 - t),
        BlendMode::Overlay => if b <= 127 {
            2 * b * t
        } else {
            65025 - 2 * (255 - b) * (255 - t)
        },
        BlendMode::Darken => 255 * imin(b, t),
        BlendMode::Lighten => 255 * imax(b, t),
        BlendMode::ColorDodge => if t == 255 {
            65025
        } else {
            imin(65025 * b / (255 - t), 65025)
        },
        BlendMode::ColorBurn => if t == 0 {
            0
        } else {
            65025 - imin(65025 * (255 - b) / t, 65025)
        },
        BlendMode::HardLight => if t <= 127 {
            2 * b * t
        } else {
            65025 - 2 * (255 - b) * (255 - t)
        },
        BlendMode::SoftLight => if t <= 127 {
            (65025 * b - (255 - 2 * t) * b * (255 - b)) / 255
        } else {
            255 * b + (2 * t - 255) * (soft_light_d(b) - b)
        },
        BlendMode::Difference => 255 * iabs(b - t),
        BlendMode::Exclusion => 255 * b + 255 * t - 2 * b * t,
    }
}

proof fn lemma_div_bound(num: int, den: int, k: int) by (nonlinear_arith)
    requires
        den > 0,
        0 <= num,
        num <= k * den,
    ensures
        0 <= num / den <= k,
{
}

proof fn lemma_div_lower(num: int, den: int, k: int) by (nonlinear_arith)
    requires
        den > 0,
        k * den <= num,
    ensures
        k <= num / den,
{
}

proof fn lemma_div_exact(k: int, den: int) by (nonlinear_arith)
    requires
        den > 0,
        k >= 0,
    ensures
        (k * den) / den == k,
{
}

/// The soft-light darkening helpers stay inside a channel's range and
/// never fall below the base channel.
proof fn lemma_soft_light_d_bounds(b: int)
    requires
        0 <= b <= 255,
    ensures
        b <= soft_light_d(b) <= 255,
{
    if b <= 63 {
        assert(((16 * b - 3060) * b + 260100) * b == (260100 - (3060 - 16 * b) * b) * b)
            by (nonlinear_arith);
        assert(0 <= (3060 - 16 * b) * b <= 192780) by (nonlinear_arith)
            requires
                0 <= b <= 63,
        ;
        assert(65025 * b <= (260100 - (3060 - 16 * b) * b) * b) by (nonlinear_arith)
            requires
                0 <= b <= 63,
                0 <= (3060 - 16 * b) * b <= 192780,
        ;
        assert((260100 - (3060 - 16 * b) * b) * b <= 260100 * 63) by (nonlinear_arith)
            requires
                0 <= b <= 63,
                0 <= (3060 - 16 * b) * b,
        ;
        lemma_div_bound(((16 * b - 3060) * b + 260100) * b, 65025, 255);
        lemma_div_lower(((16 * b - 3060) * b + 260100) * b, 65025, b);
    } else {
        lemma_isqrt_bounds(255 * b);
        let s = spec_isqrt(255 * b);
        assert(b <= s) by (nonlinear_arith)
            requires
                0 <= b <= 255,
                s >= 0,
                255 * b < (s + 1) * (s + 1),
        ;
        assert(s <= 255) by (nonlinear_arith)
            requires
                s >= 0,
                s * s <= 255 * b,
                b <= 255,
        ;
    }
}

/// The branch shared by overlay and hard light stays in range on the side
/// each mode actually selects.
proof fn lemma_hard_mix_bounds(b: int, t: int)
    requires
        0 <= b <= 255,
        0 <= t <= 255,
    ensures
        b <= 127 ==> 0 <= 2 * b * t <= 65025,
        t <= 127 ==> 0 <= 2 * b * t <= 65025,
        b > 127 ==> 0 <= 65025 - 2 * (255 - b) * (255 - t) <= 65025,
        t > 127 ==> 0 <= 65025 - 2 * (255 - b) * (255 - t) <= 65025,
{
    assert(0 <= 2 * b * t) by (nonlinear_arith)
        requires
            0 <= b,
            0 <= t,
    ;
    if b <= 127 {
        assert(2 * b * t <= 65025) by (nonlinear_arith)
            requires
                0 <= b <= 127,
                0 <= t <= 255,
        ;
    }
    if t <= 127 {
        assert(2 * b * t <= 65025) by (nonlinear_arith)
            requires
                0 <= t <= 127,
                0 <= b <= 255,
        ;
    }
    if b > 127 {
        assert(0 <= 2 * (255 - b) * (255 - t) <= 65025) by (nonlinear_arith)
            requires
                127 < b <= 255,
                0 <= t <= 255,
        ;
    }
    if t > 127 {
        assert(0 <= 2 * (255 - b) * (255 - t) <= 65025) by (nonlinear_arith)
            requires
                127 < t <= 255,
                0 <= b <= 255,
        ;
    }
}

/// The soft-light channel result stays in range.
proof fn lemma_soft_light_bounds(b: int, t: int)
    requires
        0 <= b <= 255,
        0 <= t <= 255,
    ensures
        0 <= channel_formula(BlendMode::SoftLight, b, t) <= 65025,
{
    if t <= 127 {
        assert(65025 * b - (255 - 2 * t) * b * (255 - b) == b * (65025 - (255 - 2 * t) * (255
            - b))) by (nonlinear_arith);
        assert(0 <= (255 - 2 * t) * (255 - b) <= 65025) by (nonlinear_arith)
            requires
                0 <= t <= 127,
                0 <= b <= 255,
        ;
        assert(0 <= b * (65025 - (255 - 2 * t) * (255 - b)) <= 255 * 65025) by (nonlinear_arith)
            requires
                0 <= b <= 255,
                0 <= (255 - 2 * t) * (255 - b) <= 65025,
        ;
        lemma_div_bound(65025 * b - (255 - 2 * t) * b * (255 - b), 255, 65025);
    } else {
        lemma_soft_light_d_bounds(b);
        let d = soft_light_d(b);
        assert(0 <= (2 * t - 255) * (d - b) <= 255 * (255 - b)) by (nonlinear_arith)
            requires
                127 < t <= 255,
                0 <= b,
                b <= d <= 255,
        ;
    }
}

/// Every mode's channel result lies in the scaled unit interval.
pub proof fn lemma_channel_formula_bounds(mode: BlendMode, b: int, t: int)
    requires
        0 <= b <= 255,
        0 <= t <= 255,
    ensures
        0 <= channel_formula(mode, b, t) <= 65025,
{
    match mode {
        BlendMode::Normal => {},
        BlendMode::Multiply => {
            assert(0 <= b * t <= 65025) by (nonlinear_arith)
                requires
                    0 <= b <= 255,
                    0 <= t <= 255,
            ;
        },
        BlendMode::Screen => {
            assert(0 <= (255 - b) * (255 - t) <= 65025) by (nonlinear_arith)
                requires
                    0 <= b <= 255,
                    0 <= t <= 255,
            ;
        },
        BlendMode::Overlay | BlendMode::HardLight => {
            lemma_hard_mix_bounds(b, t);
        },
        BlendMode::Darken => {},
        BlendMode::Lighten => {},
        BlendMode::ColorDodge => {
            if t != 255 {
                assert(0 <= 65025 * b / (255 - t)) by (nonlinear_arith)
                    requires
                        0 <= b,
                        t < 255,
                ;
            }
        },
        BlendMode::ColorBurn => {
            if t != 0 {
                assert(0 <= 65025 * (255 - b) / t) by (nonlinear_arith)
                    requires
                        b <= 255,
                        t > 0,
                ;
            }
        },
        BlendMode::SoftLight => {
            lemma_soft_light_bounds(b, t);
        },
        BlendMode::Difference => {},
        BlendMode::Exclusion => {
            assert(0 <= 255 * b + 255 * t - 2 * b * t <= 65025) by (nonlinear_arith)
                requires
                    0 <= b <= 255,
                    0 <= t <= 255,
            ;
        },
    }
}

/// Executable per-channel mode formula.
fn channel_value(mode: BlendMode, b: u8, t: u8) -> (r: u32)
    ensures
        r as int == channel_formula(mode, b as int, t as int),
        r <= UNIT_SQ,
{
    proof {
        lemma_channel_formula_bounds(mode, b as int, t as int);
    }
    let bw = b as u32;
    let tw = t as u32;
    match mode {
        BlendMode::Normal => 255 * tw,
        BlendMode::Multiply => {
            proof {
                assert((b as int) * (t as int) <= 65025) by (nonlinear_arith)
                    requires
                        0 <= b <= 255,
                        0 <= t <= 255,
                ;
            }
            bw * tw
        },
        BlendMode::Screen => {
            proof {
                assert(0 <= (255 - b as int) * (255 - t as int) <= 65025) by (nonlinear_arith)
                    requires
                        0 <= b <= 255,
                        0 <= t <= 255,
                ;
            }
            65025 - (255 - bw) * (255 - tw)
        },
        BlendMode::Overlay => {
            proof {
                lemma_hard_mix_bounds(b as int, t as int);
            }
            if bw <= 127 {
                2 * bw * tw
            } else {
                65025 - 2 * (255 - bw) * (255 - tw)
            }
        },
        BlendMode::Darken => 255 * (if bw <= tw { bw } else { tw }),
        BlendMode::Lighten => 255 * (if bw >= tw { bw } else { tw }),
        BlendMode::ColorDodge => {
            if tw == 255 {
                65025
            } else {
                let q = 65025 * (bw as u64) / ((255 - tw) as u64);
                if q >= 65025 {
                    65025
                } else {
                    q as u32
                }
            }
        },
        BlendMode::ColorBurn => {
            if tw == 0 {
                0
            } else {
                let q = 65025 * ((255 - bw) as u64) / (tw as u64);
                if q >= 65025 {
                    0
                } else {
                    65025 - (q as u32)
                }
            }
        },
        BlendMode::HardLight => {
            proof {
                lemma_hard_mix_bounds(b as int, t as int);
            }
            if tw <= 127 {
                2 * bw * tw
            } else {
                65025 - 2 * (255 - bw) * (255 - tw)
            }
        },
        BlendMode::SoftLight => {
            if tw <= 127 {
                proof {
                    assert(0 <= (255 - 2 * (t as int)) * (255 - (b as int)) <= 65025)
                        by (nonlinear_arith)
                        requires
                            0 <= t <= 127,
                            0 <= b <= 255,
                    ;
                }
                let shade: u32 = (255 - 2 * tw) * (255 - bw);
                proof {
                    assert(0 <= (b as int) * (65025 - (shade as int)) <= 255 * 65025)
                        by (nonlinear_arith)
                        requires
                            0 <= b <= 255,
                            0 <= shade <= 65025,
                    ;
                    assert(65025 * (b as int) - (255 - 2 * (t as int)) * (b as int) * (255 - (
                    b as int)) == (b as int) * (65025 - (255 - 2 * (t as int)) * (255 - (
                    b as int)))) by (nonlinear_arith);
                }
                let num: u64 = (bw as u64) * ((65025 - shade) as u64);
                (num / 255) as u32
            } else {
                let d: u32 = if bw <= 63 {
                    proof {
                        assert(0 <= (3060 - 16 * (b as int)) * (b as int) <= 192780)
                            by (nonlinear_arith)
                            requires
                                0 <= b <= 63,
                        ;
                    }
                    let dec: u32 = (3060 - 16 * bw) * bw;
                    proof {
                        assert(0 <= (260100 - (dec as int)) * (b as int) <= 260100 * 63)
                            by (nonlinear_arith)
                            requires
                                0 <= b <= 63,
                                0 <= dec <= 192780,
                        ;
                    }
                    let dnum: u64 = ((260100 - dec) as u64) * (bw as u64);
                    proof {
                        assert(((16 * (b as int) - 3060) * (b as int) + 260100) * (b as int) == (
                        260100 - (3060 - 16 * (b as int)) * (b as int)) * (b as int))
                            by (nonlinear_arith);
                        assert(dnum as int == ((16 * (b as int) - 3060) * (b as int) + 260100) * (
                        b as int));
                        lemma_div_bound(dnum as int, 65025, 255);
                        assert((dnum as int) / 65025 == soft_light_dark_curve(b as int));
                    }
                    (dnum / 65025) as u32
                } else {
                    isqrt(255 * bw)
                };
                proof {
                    lemma_soft_light_d_bounds(b as int);
                    assert(d as int == soft_light_d(b as int));
                    assert(0 <= (2 * (t as int) - 255) * ((d as int) - (b as int)) <= 255 * (255
                        - (b as int))) by (nonlinear_arith)
                        requires
                            127 < t <= 255,
                            0 <= b,
                            b <= d <= 255,
                    ;
                }
                255 * bw + (2 * tw - 255) * (d - bw)
            }
        },
        BlendMode::Difference => 255 * (if bw >= tw { bw - tw } else { tw - bw }),
        BlendMode::Exclusion => {
            proof {
                assert(2 * (b as int) * (t as int) <= 255 * (b as int) + 255 * (t as int)
                    && 2 * (b as int) * (t as int) <= 130050) by (nonlinear_arith)
                    requires
                        0 <= b <= 255,
                        0 <= t <= 255,
                ;
            }
            255 * bw + 255 * tw - 2 * bw * tw
        },
    }
}

/// The scaled alpha of the pre-composite result: the top alpha scaled by
/// the layer opacity, over a denominator of 255 * 255.
pub open spec fn result_alpha_scaled(ta: int, opacity: int) -> int {
    ta * opacity
}

/// The scaled output alpha of the straight-alpha composite, over a
/// denominator of 255 * 255 * 255.
pub open spec fn out_alpha_scaled(ba: int, ta: int, opacity: int) -> int {
    result_alpha_scaled(ta, opacity) * 255 + ba * (65025 - result_alpha_scaled(ta, opacity))
}

/// One output channel of the straight-alpha composite: the mode result
/// weighted by its alpha, plus the bottom channel weighted by the bottom
/// alpha and the remaining coverage, normalised by the output alpha.
/// Zero where the output alpha is zero.
pub open spec fn composite_channel(rr: int, cb: int, ba: int, a1: int, an: int) -> int {
    if an > 0 {
        (rr * a1 + cb * ba * (65025 - a1)) / an
    } else {
        0
    }
}

/// The blended pixel: mode formula on RGB, top alpha scaled by opacity,
/// then a straight-alpha composite over the bottom pixel.
pub open spec fn spec_blend_pixel(bottom: Pixel, top: Pixel, mode: BlendMode, opacity: int) -> Pixel {
    let a1 = result_alpha_scaled(top.a as int, opacity);
    let an = out_alpha_scaled(bottom.a as int, top.a as int, opacity);
    Pixel {
        r: composite_channel(
            channel_formula(mode, bottom.r as int, top.r as int),
            bottom.r as int,
            bottom.a as int,
            a1,
            an,
        ) as u8,
        g: composite_channel(
            channel_formula(mode, bottom.g as int, top.g as int),
            bottom.g as int,
            bottom.a as int,
            a1,
            an,
        ) as u8,
        b: composite_channel(
            channel_formula(mode, bottom.b as int, top.b as int),
            bottom.b as int,
            bottom.a as int,
            a1,
            an,
        ) as u8,
        a: (an / 65025) as u8,
    }
}

/// The composite keeps every channel inside 0..=255.
pub proof fn lemma_composite_channel_bounds(rr: int, cb: int, ba: int, a1: int, an: int)
    requires
        0 <= rr <= 65025,
        0 <= cb <= 255,
        0 <= ba <= 255,
        0 <= a1 <= 65025,
        an == a1 * 255 + ba * (65025 - a1),
    ensures
        0 <= composite_channel(rr, cb, ba, a1, an) <= 255,
        0 <= an <= 255 * 65025,
        0 <= an / 65025 <= 255,
        0 <= rr * a1 + cb * ba * (65025 - a1),
        rr * a1 + cb * ba * (65025 - a1) <= 255 * an,
{
    assert(0 <= an <= 255 * 65025) by (nonlinear_arith)
        requires
            0 <= a1 <= 65025,
            0 <= ba <= 255,
            an == a1 * 255 + ba * (65025 - a1),
    ;
    lemma_div_bound(an, 65025, 255);
    assert(0 <= rr * a1 + cb * ba * (65025 - a1) && rr * a1 + cb * ba * (65025 - a1) <= 255 * an)
        by (nonlinear_arith)
        requires
            0 <= rr <= 65025,
            0 <= cb <= 255,
            0 <= ba <= 255,
            0 <= a1 <= 65025,
            an == a1 * 255 + ba * (65025 - a1),
    ;
    if an > 0 {
        lemma_div_bound(rr * a1 + cb * ba * (65025 - a1), an, 255);
    }
}

/// One composite channel, executable.
fn composite_channel_exec(rr: u32, cb: u8, ba: u8, a1: u32, an: u64) -> (r: u8)
    requires
        rr <= UNIT_SQ,
        a1 <= UNIT_SQ,
        an == a1 * 255 + ba * (65025 - a1),
    ensures
        r as int == composite_channel(rr as int, cb as int, ba as int, a1 as int, an as int),
{
    proof {
        lemma_composite_channel_bounds(rr as int, cb as int, ba as int, a1 as int, an as int);
        assert((cb as int) * (ba as int) <= 65025) by (nonlinear_arith)
            requires
                0 <= cb <= 255,
                0 <= ba <= 255,
        ;
        assert((rr as int) * (a1 as int) <= 65025 * 65025) by (nonlinear_arith)
            requires
                0 <= rr <= 65025,
                0 <= a1 <= 65025,
        ;
        assert((cb as int) * (ba as int) * (65025 - (a1 as int)) <= 65025 * 65025)
            by (nonlinear_arith)
            requires
                0 <= (cb as int) * (ba as int) <= 65025,
                0 <= a1 <= 65025,
        ;
        assert(0 <= (cb as int) * (ba as int) * (65025 - (a1 as int))) by (nonlinear_arith)
            requires
                0 <= (cb as int) * (ba as int),
                0 <= a1 <= 65025,
        ;
    }
    if an > 0 {
        let num: u64 = (rr as u64) * (a1 as u64) + ((cb as u64) * (ba as u64)) * (65025 - (
        a1 as u64));
        (num / an) as u8
    } else {
        0
    }
}

/// Blends one pixel over another.
pub fn blend_pixel(bottom: Pixel, top: Pixel, mode: BlendMode, opacity: u8) -> (r: Pixel)
    ensures
        r == spec_blend_pixel(bottom, top, mode, opacity as int),
{
    proof {
        assert(0 <= (top.a as int) * (opacity as int) <= 65025) by (nonlinear_arith)
            requires
                0 <= top.a <= 255,
                0 <= opacity <= 255,
        ;
    }
    let a1: u32 = (top.a as u32) * (opacity as u32);
    proof {
        lemma_composite_channel_bounds(
            0,
            0,
            bottom.a as int,
            a1 as int,
            (a1 as int) * 255 + (bottom.a as int) * (65025 - a1 as int),
        );
        assert(0 <= (bottom.a as int) * (65025 - (a1 as int)) <= 255 * 65025) by (nonlinear_arith)
            requires
                0 <= bottom.a <= 255,
                0 <= a1 <= 65025,
        ;
    }
    let an: u64 = (a1 as u64) * 255 + (bottom.a as u64) * (65025 - (a1 as u64));
    let rr = channel_value(mode, bottom.r, top.r);
    let rg = channel_value(mode, bottom.g, top.g);
    let rb = channel_value(mode, bottom.b, top.b);
    let out_r = composite_channel_exec(rr, bottom.r, bottom.a, a1, an);
    let out_g = composite_channel_exec(rg, bottom.g, bottom.a, a1, an);
    let out_b = composite_channel_exec(rb, bottom.b, bottom.a, a1, an);
    let out_a = (an / 65025) as u8;
    Pixel { r: out_r, g: out_g, b: out_b, a: out_a }
}

/// The blend of two images, pixel by pixel over their common extent.
pub open spec fn spec_blend_images(
    bottom: ImageView,
    top: ImageView,
    mode: BlendMode,
    opacity: int,
) -> ImageView {
    let w = imin(bottom.width as int, top.width as int);
    let h = imin(bottom.height as int, top.height as int);
    ImageView {
        width: w as nat,
        height: h as nat,
        pixels: Seq::new(
            (w * h) as nat,
            |k: int| spec_blend_pixel(
                bottom.pixel(k % w, k / w),
                top.pixel(k % w, k / w),
                mode,
                opacity,
            ),
        ),
    }
}

/// Blends the top image over the bottom one over their common extent.
pub fn blend_images(bottom: &ImageBuf, top: &ImageBuf, mode: BlendMode, opacity: u8) -> (r:
    ImageBuf)
    requires
        bottom@.wf(),
        top@.wf(),
    ensures
        r@.wf(),
        r@ == spec_blend_images(bottom@, top@, mode, opacity as int),
{
    let w: u32 = if bottom.width <= top.width {
        bottom.width
    } else {
        top.width
    };
    let h: u32 = if bottom.height <= top.height {
        bottom.height
    } else {
        top.height
    };
    let bn = bottom.pixels.len();
    proof {
        assert((w as int) * (h as int) <= (bottom.width as int) * (bottom.height as int))
            by (nonlinear_arith)
            requires
                0 <= w <= bottom.width,
                0 <= h <= bottom.height,
        ;
    }
    let count = (w as usize) * (h as usize);
    let mut pixels: Vec<Pixel> = Vec::new();
    let mut k: usize = 0;
    let ghost target = spec_blend_images(bottom@, top@, mode, opacity as int);
    while k < count
        invariant
            count == (w as int) * (h as int),
            w as int == imin(bottom@.width as int, top@.width as int),
            h as int == imin(bottom@.height as int, top@.height as int),
            w <= bottom.width,
            w <= top.width,
            h <= bottom.height,
            h <= top.height,
            bottom@.wf(),
            top@.wf(),
            k <= count,
            target == spec_blend_images(bottom@, top@, mode, opacity as int),
            target.pixels.len() == count,
            pixels@.len() == k,
            forall|j: int| 0 <= j < k ==> pixels@[j] == target.pixels[j],
        decreases count - k,
    {
        proof {
            assert(w > 0 && h > 0) by (nonlinear_arith)
                requires
                    (k as int) < (w as int) * (h as int),
                    0 <= k,
                    0 <= w,
                    0 <= h,
            ;
            assert((k as int) / (w as int) < h) by (nonlinear_arith)
                requires
                    0 <= (k as int) < (w as int) * (h as int),
                    0 < w,
            ;
        }
        let x: u32 = (k % (w as usize)) as u32;
        let y: u32 = (k / (w as usize)) as u32;
        let bp = bottom.get_pixel(x, y);
        let tp = top.get_pixel(x, y);
        let blended = blend_pixel(bp, tp, mode, opacity);
        proof {
            let wi = imin(bottom@.width as int, top@.width as int);
            assert(wi == w as int);
            assert(target.pixels[k as int] == spec_blend_pixel(
                bottom@.pixel((k as int) % wi, (k as int) / wi),
                top@.pixel((k as int) % wi, (k as int) / wi),
                mode,
                opacity as int,
            ));
        }
        pixels.push(blended);
        k = k + 1;
    }
    let r = ImageBuf { width: w, height: h, pixels };
    proof {
        assert(r@.pixels =~= target.pixels);
        assert(r@ =~~= target);
        assert(target.wf()) by (nonlinear_arith)
            requires
                target.pixels.len() == (target.width as int) * (target.height as int),
        ;
    }
    r
}

/// The display name of each mode.
pub open spec fn spec_mode_name(mode: BlendMode) -> Seq<char> {
    match mode {
        BlendMode::Normal => "Normal"@,
        BlendMode::Multiply => "Multiply"@,
        BlendMode::Screen => "Screen"@,
        BlendMode::Overlay => "Overlay"@,
        BlendMode::Darken => "Darken"@,
        BlendMode::Lighten => "Lighten"@,
        BlendMode::ColorDodge => "ColorDodge"@,
        BlendMode::ColorBurn => "ColorBurn"@,
        BlendMode::HardLight => "HardLight"@,
        BlendMode::SoftLight => "SoftLight"@,
        BlendMode::Difference => "Difference"@,
        BlendMode::Exclusion => "Exclusion"@,
    }
}

/// The mode a display name denotes, if any.
pub open spec fn spec_parse_mode(s: Seq<char>) -> Option<BlendMode> {
    if s == "Normal"@ {
        Some(BlendMode::Normal)
    } else if s == "Multiply"@ {
        Some(BlendMode::Multiply)
    } else if s == "Screen"@ {
        Some(BlendMode::Screen)
    } else if s == "Overlay"@ {
        Some(BlendMode::Overlay)
    } else if s == "Darken"@ {
        Some(BlendMode::Darken)
    } else if s == "Lighten"@ {
        Some(BlendMode::Lighten)
    } else if s == "ColorDodge"@ {
        Some(BlendMode::ColorDodge)
    } else if s == "ColorBurn"@ {
        Some(BlendMode::ColorBurn)
    } else if s == "HardLight"@ {
        Some(BlendMode::HardLight)
    } else if s == "SoftLight"@ {
        Some(BlendMode::SoftLight)
    } else if s == "Difference"@ {
        Some(BlendMode::Difference)
    } else if s == "Exclusion"@ {
        Some(BlendMode::Exclusion)
    } else {
        None
    }
}

impl BlendMode {
    pub fn name(&self) -> (r: &'static str)
        ensures
            r@ == spec_mode_name(*self),
    {
        match self {
            BlendMode::Normal => "Normal",
            BlendMode::Multiply => "Multiply",
            BlendMode::Screen => "Screen",
            BlendMode::Overlay => "Overlay",
            BlendMode::Darken => "Darken",
            BlendMode::Lighten => "Lighten",
            BlendMode::ColorDodge => "ColorDodge",
            BlendMode::ColorBurn => "ColorBurn",
            BlendMode::HardLight => "HardLight",
            BlendMode::SoftLight => "SoftLight",
            BlendMode::Difference => "Difference",
            BlendMode::Exclusion => "Exclusion",
        }
    }

    pub fn parse(name: &String) -> (r: Option<BlendMode>)
        ensures
            r == spec_parse_mode(name@),
    {
        if *name == "Normal".to_owned() {
            Some(BlendMode::Normal)
        } else if *name == "Multiply".to_owned() {
            Some(BlendMode::Multiply)
        } else if *name == "Screen".to_owned() {
            Some(BlendMode::Screen)
        } else if *name == "Overlay".to_owned() {
            Some(BlendMode::Overlay)
        } else if *name == "Darken".to_owned() {
            Some(BlendMode::Darken)
        } else if *name == "Lighten".to_owned() {
            Some(BlendMode::Lighten)
        } else if *name == "ColorDodge".to_owned() {
            Some(BlendMode::ColorDodge)
        } else if *name == "ColorBurn".to_owned() {
            Some(BlendMode::ColorBurn)
        } else if *name == "HardLight".to_owned() {
            Some(BlendMode::HardLight)
        } else if *name == "SoftLight".to_owned() {
            Some(BlendMode::SoftLight)
        } else if *name == "Difference".to_owned() {
            Some(BlendMode::Difference)
        } else if *name == "Exclusion".to_owned() {
            Some(BlendMode::Exclusion)
        } else {
            None
        }
    }
}

/// A mode's display name parses back to the mode itself.
pub proof fn lemma_mode_name_round_trip(mode: BlendMode)
    ensures
        spec_parse_mode(spec_mode_name(mode)) == Some(mode),
{
    reveal_strlit("Normal");
    reveal_strlit("Multiply");
    reveal_strlit("Screen");
    reveal_strlit("Overlay");
    reveal_strlit("Darken");
    reveal_strlit("Lighten");
    reveal_strlit("ColorDodge");
    reveal_strlit("ColorBurn");
    reveal_strlit("HardLight");
    reveal_strlit("SoftLight");
    reveal_strlit("Difference");
    reveal_strlit("Exclusion");
    assert("Normal"@.len() != "Multiply"@.len());
    assert("Normal"@ != "Multiply"@);
    assert("Normal"@[0] == 'N' && "Screen"@[0] == 'S');
    assert("Normal"@ != "Screen"@);
    assert("Normal"@.len() != "Overlay"@.len());
    assert("Normal"@ != "Overlay"@);
    assert("Normal"@[0] == 'N' && "Darken"@[0] == 'D');
    assert("Normal"@ != "Darken"@);
    assert("Normal"@.len() != "Lighten"@.len());
    assert("Normal"@ != "Lighten"@);
    assert("Normal"@.len() != "ColorDodge"@.len());
    assert("Normal"@ != "ColorDodge"@);
    assert("Normal"@.len() != "ColorBurn"@.len());
    assert("Normal"@ != "ColorBurn"@);
    assert("Normal"@.len() != "HardLight"@.len());
    assert("Normal"@ != "HardLight"@);
    assert("Normal"@.len() != "SoftLight"@.len());
    assert("Normal"@ != "SoftLight"@);
    assert("Normal"@.len() != "Difference"@.len());
    assert("Normal"@ != "Difference"@);
    assert("Normal"@.len() != "Exclusion"@.len());
    assert("Normal"@ != "Exclusion"@);
    assert("Multiply"@.len() != "Screen"@.len());
    assert("Multiply"@ != "Screen"@);
    assert("Multiply"@.len() != "Overlay"@.len());
    assert("Multiply"@ != "Overlay"@);
    assert("Multiply"@.len() != "Darken"@.len());
    assert("Multiply"@ != "Darken"@);
    assert("Multiply"@.len() != "Lighten"@.len());
    assert("Multiply"@ != "Lighten"@);
    assert("Multiply"@.len() != "ColorDodge"@.len());
    assert("Multiply"@ != "ColorDodge"@);
    assert("Multiply"@.len() != "ColorBurn"@.len());
    assert("Multiply"@ != "ColorBurn"@);
    assert("Multiply"@.len() != "HardLight"@.len());
    assert("Multiply"@ != "HardLight"@);
    assert("Multiply"@.len() != "SoftLight"@.len());
    assert("Multiply"@ != "SoftLight"@);
    assert("Multiply"@.len() != "Difference"@.len());
    assert("Multiply"@ != "Difference"@);
    assert("Multiply"@.len() != "Exclusion"@.len());
    assert("Multiply"@ != "Exclusion"@);
    assert("Screen"@.len() != "Overlay"@.len());
    assert("Screen"@ != "Overlay"@);
    assert("Screen"@[0] == 'S' && "Darken"@[0] == 'D');
    assert("Screen"@ != "Darken"@);
    assert("Screen"@.len() != "Lighten"@.len());
    assert("Screen"@ != "Lighten"@);
    assert("Screen"@.len() != "ColorDodge"@.len());
    assert("Screen"@ != "ColorDodge"@);
    assert("Screen"@.len() != "ColorBurn"@.len());
    assert("Screen"@ != "ColorBurn"@);
    assert("Screen"@.len() != "HardLight"@.len());
    assert("Screen"@ != "HardLight"@);
    assert("Screen"@.len() != "SoftLight"@.len());
    assert("Screen"@ != "SoftLight"@);
    assert("Screen"@.len() != "Difference"@.len());
    assert("Screen"@ != "Difference"@);
    assert("Screen"@.len() != "Exclusion"@.len());
    assert("Screen"@ != "Exclusion"@);
    assert("Overlay"@.len() != "Darken"@.len());
    assert("Overlay"@ != "Darken"@);
    assert("Overlay"@[0] == 'O' && "Lighten"@[0] == 'L');
    assert("Overlay"@ != "Lighten"@);
    assert("Overlay"@.len() != "ColorDodge"@.len());
    assert("Overlay"@ != "ColorDodge"@);
    assert("Overlay"@.len() != "ColorBurn"@.len());
    assert("Overlay"@ != "ColorBurn"@);
    assert("Overlay"@.len() != "HardLight"@.len());
    assert("Overlay"@ != "HardLight"@);
    assert("Overlay"@.len() != "SoftLight"@.len());
    assert("Overlay"@ != "SoftLight"@);
    assert("Overlay"@.len() != "Difference"@.len());
    assert("Overlay"@ != "Difference"@);
    assert("Overlay"@.len() != "Exclusion"@.len());
    assert("Overlay"@ != "Exclusion"@);
    assert("Darken"@.len() != "Lighten"@.len());
    assert("Darken"@ != "Lighten"@);
    assert("Darken"@.len() != "ColorDodge"@.len());
    assert("Darken"@ != "ColorDodge"@);
    assert("Darken"@.len() != "ColorBurn"@.len());
    assert("Darken"@ != "ColorBurn"@);
    assert("Darken"@.len() != "HardLight"@.len());
    assert("Darken"@ != "HardLight"@);
    assert("Darken"@.len() != "SoftLight"@.len());
    assert("Darken"@ != "SoftLight"@);
    assert("Darken"@.len() != "Difference"@.len());
    assert("Darken"@ != "Difference"@);
    assert("Darken"@.len() != "Exclusion"@.len());
    assert("Darken"@ != "Exclusion"@);
    assert("Lighten"@.len() != "ColorDodge"@.len());
    assert("Lighten"@ != "ColorDodge"@);
    assert("Lighten"@.len() != "ColorBurn"@.len());
    assert("Lighten"@ != "ColorBurn"@);
    assert("Lighten"@.len() != "HardLight"@.len());
    assert("Lighten"@ != "HardLight"@);
    assert("Lighten"@.len() != "SoftLight"@.len());
    assert("Lighten"@ != "SoftLight"@);
    assert("Lighten"@.len() != "Difference"@.len());
    assert("Lighten"@ != "Difference"@);
    assert("Lighten"@.len() != "Exclusion"@.len());
    assert("Lighten"@ != "Exclusion"@);
    assert("ColorDodge"@.len() != "ColorBurn"@.len());
    assert("ColorDodge"@ != "ColorBurn"@);
    assert("ColorDodge"@.len() != "HardLight"@.len());
    assert("ColorDodge"@ != "HardLight"@);
    assert("ColorDodge"@.len() != "SoftLight"@.len());
    assert("ColorDodge"@ != "SoftLight"@);
    assert("ColorDodge"@[0] == 'C' && "Difference"@[0] == 'D');
    assert("ColorDodge"@ != "Difference"@);
    assert("ColorDodge"@.len() != "Exclusion"@.len());
    assert("ColorDodge"@ != "Exclusion"@);
    assert("ColorBurn"@[0] == 'C' && "HardLight"@[0] == 'H');
    assert("ColorBurn"@ != "HardLight"@);
    assert("ColorBurn"@[0] == 'C' && "SoftLight"@[0] == 'S');
    assert("ColorBurn"@ != "SoftLight"@);
    assert("ColorBurn"@.len() != "Difference"@.len());
    assert("ColorBurn"@ != "Difference"@);
    assert("ColorBurn"@[0] == 'C' && "Exclusion"@[0] == 'E');
    assert("ColorBurn"@ != "Exclusion"@);
    assert("HardLight"@[0] == 'H' && "SoftLight"@[0] == 'S');
    assert("HardLight"@ != "SoftLight"@);
    assert("HardLight"@.len() != "Difference"@.len());
    assert("HardLight"@ != "Difference"@);
    assert("HardLight"@[0] == 'H' && "Exclusion"@[0] == 'E');
    assert("HardLight"@ != "Exclusion"@);
    assert("SoftLight"@.len() != "Difference"@.len());
    assert("SoftLight"@ != "Difference"@);
    assert("SoftLight"@[0] == 'S' && "Exclusion"@[0] == 'E');
    assert("SoftLight"@ != "Exclusion"@);
    assert("Difference"@.len() != "Exclusion"@.len());
    assert("Difference"@ != "Exclusion"@);
}

/// Normal blend at full opacity over a fully transparent bottom pixel
/// reproduces the top pixel's alpha exactly, and its color whenever the
/// top pixel has any coverage; at zero coverage the composite's own
/// convention zeroes the color channels.
pub proof fn lemma_normal_over_transparent(bottom: Pixel, top: Pixel)
    requires
        bottom.a == 0,
    ensures
        spec_blend_pixel(bottom, top, BlendMode::Normal, 255).a == top.a,
        top.a > 0 ==> spec_blend_pixel(bottom, top, BlendMode::Normal, 255) == (Pixel {
            r: top.r,
            g: top.g,
            b: top.b,
            a: top.a,
        }),
{
    let ta = top.a as int;
    let a1 = result_alpha_scaled(ta, 255);
    let an = out_alpha_scaled(0, ta, 255);
    assert(a1 == ta * 255);
    assert(an == ta * 255 * 255 + 0 * (65025 - ta * 255));
    assert(an == ta * 65025) by (nonlinear_arith)
        requires
            an == ta * 255 * 255 + 0 * (65025 - ta * 255),
    ;
    lemma_div_exact(ta, 65025);
    assert(an / 65025 == ta);
    if top.a > 0 {
        assert(an > 0) by (nonlinear_arith)
            requires
                an == ta * 65025,
                ta > 0,
        ;
        lemma_channel_preserved(top.r as int, ta, a1, an);
        lemma_channel_preserved(top.g as int, ta, a1, an);
        lemma_channel_preserved(top.b as int, ta, a1, an);
    }
}

/// Helper for the transparent-bottom law: with no bottom coverage the
/// composite returns the mode channel exactly.
proof fn lemma_channel_preserved(tc: int, ta: int, a1: int, an: int)
    requires
        0 <= tc <= 255,
        ta > 0,
        a1 == ta * 255,
        an == ta * 65025,
    ensures
        composite_channel(255 * tc, tc, 0, a1, an) == tc,
{
    assert(an > 0) by (nonlinear_arith)
        requires
            an == ta * 65025,
            ta > 0,
    ;
    assert(255 * tc * a1 + tc * 0 * (65025 - a1) == tc * an) by (nonlinear_arith)
        requires
            a1 == ta * 255,
            an == ta * 65025,
    ;
    lemma_div_exact(tc, an);
}

/// Multiply blend of a fully opaque white bottom under a fully opaque
/// mid-grey top at full opacity yields the mid-grey value back.
pub proof fn lemma_multiply_grey_example()
    ensures
        spec_blend_pixel(
            Pixel { r: 255, g: 255, b: 255, a: 255 },
            Pixel { r: 128, g: 128, b: 128, a: 255 },
            BlendMode::Multiply,
            255,
        ) == (Pixel { r: 128, g: 128, b: 128, a: 255 }),
{
    let a1 = result_alpha_scaled(255, 255);
    let an = out_alpha_scaled(255, 255, 255);
    assert(a1 == 65025);
    assert(an == 16581375);
    assert(channel_formula(BlendMode::Multiply, 255, 128) == 32640);
    assert(32640 * 65025 + 255 * 255 * (65025 - 65025) == 128 * 16581375);
    lemma_div_exact(128, 16581375);
    lemma_div_exact(255, 65025);
    assert(an / 65025 == 255);
    assert(composite_channel(32640, 255, 255, a1, an) == 128);
}

} // verus!
