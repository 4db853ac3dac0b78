//! Visually distinct label colors from evenly spaced hues.
//!
//! Colors are taken from the HSL cone at saturation 0.9 and lightness 0.5,
//! with the hue of the `i`-th color at `i * 360 / n` degrees. At this fixed
//! saturation and lightness the standard hexcone conversion to 8-bit sRGB has
//! a closed integer form: each channel is either the constant high level
//! `round(255 * 0.95)`, the constant low level `round(255 * 0.05)`, or a
//! linear ramp between them, selected by which sixth of the hue circle the
//! hue falls in. All arithmetic here is exact.

use vstd::prelude::*;
use vstd::arithmetic::div_mod::{
    lemma_div_is_ordered, lemma_fundamental_div_mod, lemma_fundamental_div_mod_converse,
};
use vstd::arithmetic::mul::lemma_mul_inequality;

verus! {

/// An 8-bit RGBA color.
#[derive(Clone, Copy, Debug, PartialEq, Eq, Structural)]
pub struct Color {
    /// Red channel.
    pub r: u8,
    /// Green channel.
    pub g: u8,
    /// Blue channel.
    pub b: u8,
    /// Alpha channel.
    pub a: u8,
}

/// Which sixth of the hue circle the `i`-th of `n` hues falls in: the integer
/// part of `hue / 60` for `hue = i * 360 / n`.
pub open spec fn hue_sector(i: int, n: int) -> int {
    (6 * i) / n
}

/// The position of the `i`-th hue inside its sector, scaled by `n`:
/// the remainder of `6 * i` modulo `n`.
pub open spec fn hue_pos(i: int, n: int) -> int {
    (6 * i) % n
}

/// The ramp offset of the `i`-th hue, scaled by `n`: the hexcone chroma term
/// `1 - |(hue / 60) mod 2 - 1|` multiplied by `n`. It rises from 0 to `n`
/// over even sectors and falls back over odd ones.
pub open spec fn hue_ramp(i: int, n: int) -> int {
    let a = (6 * i) % (2 * n);
    if a < n {
        a
    } else {
        2 * n - a
    }
}

/// The 8-bit level of a channel whose hexcone value is `0.9 * u / n + 0.05`:
/// `round(255 * (0.9 * u / n + 0.05))` rewritten over the integers as
/// `floor((1836 * u + 106 * n) / (8 * n))`. For `u = 0` this is the low
/// level 13, for `u = n` the high level 242.
pub open spec fn channel_level(u: int, n: int) -> int {
    (1836 * u + 106 * n) / (8 * n)
}

/// The `i`-th of `n` contrasting colors: hue `i * 360 / n` at saturation 0.9
/// and lightness 0.5, converted to 8-bit sRGB, with the given alpha.
pub open spec fn color_spec(i: int, n: int, alpha: u8) -> Color {
    let hi = channel_level(n, n) as u8;
    let lo = channel_level(0, n) as u8;
    let x = channel_level(hue_ramp(i, n), n) as u8;
    let k = hue_sector(i, n);
    if k == 0 {
        Color { r: hi, g: x, b: lo, a: alpha }
    } else if k == 1 {
        Color { r: x, g: hi, b: lo, a: alpha }
    } else if k == 2 {
        Color { r: lo, g: hi, b: x, a: alpha }
    } else if k == 3 {
        Color { r: lo, g: x, b: hi, a: alpha }
    } else if k == 4 {
        Color { r: x, g: lo, b: hi, a: alpha }
    } else {
        Color { r: hi, g: lo, b: x, a: alpha }
    }
}

/// Computes `channel_level(u, n)` exactly in 128-bit arithmetic.
fn channel(u: u128, n: u128) -> (c: u8)
    requires
        0 < n,
        u <= n,
        n <= u64::MAX as u128,
    ensures
        c as int == channel_level(u as int, n as int),
        c <= 242,
{
    proof {
        lemma_mul_inequality(u as int, n as int, 1836);
        assert(1836 * u <= 1836 * n);
        assert(1836 * (n as int) + 106 * (n as int) == 1942 * (n as int));
        lemma_div_is_ordered(
            1836 * (u as int) + 106 * (n as int),
            1942 * (n as int),
            8 * (n as int),
        );
        lemma_fundamental_div_mod_converse(1942 * (n as int), 8 * (n as int), 242, 6 * (n as int));
        assert((1942 * (n as int)) / (8 * (n as int)) == 242);
    }
    let v = (1836 * u + 106 * n) / (8 * n);
    v as u8
}

/// The color with index `i` out of `n`.
fn nth_color(i: usize, n: usize, alpha: u8) -> (c: Color)
    requires
        i < n,
    ensures
        c == color_spec(i as int, n as int, alpha),
{
    let ni = i as u128;
    let nn = n as u128;
    let s = 6 * ni;
    let k = s / nn;
    let a = s % (2 * nn);
    let u = if a < nn {
        a
    } else {
        2 * nn - a
    };
    proof {
        assert(k == hue_sector(i as int, n as int));
        assert(u == hue_ramp(i as int, n as int));
        assert(6 * (i as int) < 6 * (n as int));
        lemma_fundamental_div_mod(6 * (i as int), n as int);
        assert(k < 6) by {
            if k >= 6 {
                lemma_mul_inequality(6, (6 * (i as int)) / (n as int), n as int);
                assert(6 * (n as int) <= ((6 * (i as int)) / (n as int)) * (n as int));
            }
        }
        assert(u <= nn);
    }
    let hi = channel(nn, nn);
    let lo = channel(0, nn);
    let x = channel(u, nn);
    if k == 0 {
        Color { r: hi, g: x, b: lo, a: alpha }
    } else if k == 1 {
        Color { r: x, g: hi, b: lo, a: alpha }
    } else if k == 2 {
        Color { r: lo, g: hi, b: x, a: alpha }
    } else if k == 3 {
        Color { r: lo, g: x, b: hi, a: alpha }
    } else if k == 4 {
        Color { r: x, g: lo, b: hi, a: alpha }
    } else {
        Color { r: hi, g: lo, b: x, a: alpha }
    }
}

/// Generates `n` visually distinct, contrasting RGBA colors.
///
/// The `i`-th color has hue `i * 360 / n` degrees at saturation 0.9 and
/// lightness 0.5, converted to 8-bit sRGB; every color carries the supplied
/// alpha. `n = 0` yields an empty vector.
pub fn generate_contrasting_colors(n: usize, alpha: u8) -> (colors: Vec<Color>)
    ensures
        colors@.len() == n,
        forall|i: int| 0 <= i < n ==> colors@[i] == color_spec(i, n as int, alpha),
        forall|i: int| 0 <= i < n ==> (#[trigger] colors@[i]).a == alpha,
{
    let mut colors: Vec<Color> = Vec::new();
    let mut idx: usize = 0;
    while idx < n
        invariant
            idx <= n,
            colors@.len() == idx,
            forall|i: int| 0 <= i < idx ==> colors@[i] == color_spec(i, n as int, alpha),
        decreases n - idx,
    {
        let c = nth_color(idx, n, alpha);
        colors.push(c);
        idx = idx + 1;
    }
    colors
}

/// The hue of the `i`-th color is exactly `i * 360 / n` degrees, encoded by
/// sector and ramp: writing `6 * i = q * n + p` by Euclidean division, the
/// sector is `q`, so `hue / 60 = q + p / n`, i.e. `hue = i * 360 / n`; the
/// ramp offset rises with `p` on even sectors and falls on odd ones.
pub proof fn lemma_hue_encoding(i: int, n: int)
    requires
        0 <= i < n,
    ensures
        6 * i == hue_sector(i, n) * n + hue_pos(i, n),
        0 <= hue_pos(i, n) < n,
        0 <= hue_sector(i, n) < 6,
        hue_ramp(i, n) == if hue_sector(i, n) % 2 == 0 {
            hue_pos(i, n)
        } else {
            n - hue_pos(i, n)
        },
{
    let q = hue_sector(i, n);
    let p = hue_pos(i, n);
    lemma_fundamental_div_mod(6 * i, n);
    assert(q * n + p == 6 * i);
    assert(0 <= p < n);
    assert(0 <= q) by {
        if q < 0 {
            lemma_mul_inequality(q, -1, n);
        }
    }
    assert(q < 6) by {
        if q >= 6 {
            lemma_mul_inequality(6, q, n);
        }
    }
    let m = q / 2;
    if q % 2 == 0 {
        assert(q == 2 * m);
        assert(6 * i == m * (2 * n) + p) by (nonlinear_arith)
            requires
                6 * i == q * n + p,
                q == 2 * m,
        ;
        lemma_fundamental_div_mod_converse(6 * i, 2 * n, m, p);
    } else {
        assert(q == 2 * m + 1);
        assert(6 * i == m * (2 * n) + (n + p)) by (nonlinear_arith)
            requires
                6 * i == q * n + p,
                q == 2 * m + 1,
        ;
        lemma_fundamental_div_mod_converse(6 * i, 2 * n, m, n + p);
    }
}

/// Distinct indices always get distinct hue encodings: either their sectors
/// differ or their ramp offsets do. Evenly spaced hues never coincide,
/// whatever the palette size.
pub proof fn lemma_hue_injective(i1: int, i2: int, n: int)
    requires
        0 <= i1 < n,
        0 <= i2 < n,
        i1 != i2,
    ensures
        hue_sector(i1, n) != hue_sector(i2, n) || hue_ramp(i1, n) != hue_ramp(i2, n),
{
    lemma_hue_encoding(i1, n);
    lemma_hue_encoding(i2, n);
    if hue_sector(i1, n) == hue_sector(i2, n) && hue_ramp(i1, n) == hue_ramp(i2, n) {
        assert(hue_pos(i1, n) == hue_pos(i2, n));
        assert(6 * i1 == 6 * i2);
        assert(false);
    }
}

} // verus!
