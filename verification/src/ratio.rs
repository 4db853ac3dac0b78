//! Exact aspect-ratio comparison against a single-precision threshold.
//!
//! The filter threshold arrives as the bit pattern of a finite positive
//! IEEE-754 single-precision number, so every representable threshold keeps
//! its exact value: a pattern `bits` with exponent field `e` and mantissa
//! field `m` denotes `m * 2^-149` when `e = 0` and `(2^23 + m) * 2^(e-150)`
//! otherwise. Scaling by `2^149` turns the threshold into the integer `N`,
//! and for squared side lengths `s1`, `s2` the strict test
//! `sqrt(max/min) < N * 2^-149` is equivalent to the integer comparison
//! `max * 2^298 < min * N^2`, which is decided here without rounding.

use vstd::prelude::*;
use vstd::arithmetic::power2::{lemma2_to64, lemma_pow2_adds, lemma_pow2_pos, lemma_pow2_unfold, pow2};
use crate::rect::{max2, min2};

verus! {

/// True iff `bits` is the IEEE-754 single-precision pattern of a finite
/// positive number: sign bit clear, exponent field below the infinity/NaN
/// value, and not zero.
pub open spec fn is_positive_finite_f32(bits: u32) -> bool {
    0 < bits < 0x7F80_0000
}

/// The value denoted by the finite positive pattern `bits`, scaled by
/// `2^149` so that it is an integer.
pub open spec fn f32_scaled_149(bits: u32) -> int {
    let e = bits / 0x80_0000;
    let m = bits % 0x80_0000;
    if e == 0 {
        m as int
    } else {
        (0x80_0000 + m) * pow2((e - 1) as nat)
    }
}

/// Whether a rectangle with squared side lengths `s1` and `s2` is strictly
/// less elongated than the threshold encoded by `bits`: with `r` the
/// threshold value and `N = r * 2^149`, the test `sqrt(max/min) < r` squared
/// and cleared of denominators is `max * 2^298 < min * N * N`.
pub open spec fn aspect_below(s1: int, s2: int, bits: u32) -> bool {
    max2(s1, s2) * pow2(298) < min2(s1, s2) * f32_scaled_149(bits) * f32_scaled_149(bits)
}

/// Multiplying both sides of a strict comparison by a positive factor
/// neither creates nor destroys it.
proof fn lemma_cancel_positive_factor(a: int, b: int, c: int)
    requires
        c > 0,
    ensures
        (a * c < b * c) <==> (a < b),
{
    assert((a * c < b * c) <==> (a < b)) by (nonlinear_arith)
        requires
            c > 0,
    ;
}

/// A product with a factor of at least one is no smaller than the other
/// factor.
proof fn lemma_mul_at_least(a: int, c: int)
    requires
        a >= 0,
        c >= 1,
    ensures
        a * c >= a,
{
    assert(a * c >= a) by (nonlinear_arith)
        requires
            a >= 0,
            c >= 1,
    ;
}

/// Decides `aspect_below(s1, s2, bits)` for the squared side lengths of a
/// rectangle whose vertices have 32-bit coordinates.
pub fn aspect_strictly_below(s1: u128, s2: u128, bits: u32) -> (res: bool)
    requires
        is_positive_finite_f32(bits),
        1 <= s1 <= 0x40000_0000_0000_0000,
        1 <= s2 <= 0x40000_0000_0000_0000,
    ensures
        res == aspect_below(s1 as int, s2 as int, bits),
{
    let (smax, smin): (u128, u128) = if s1 >= s2 {
        (s1, s2)
    } else {
        (s2, s1)
    };
    let m = bits % 0x80_0000;
    let e = bits / 0x80_0000;
    let (sig, ee): (u64, u32) = if e == 0 {
        (m as u64, 1u32)
    } else {
        ((0x80_0000 + m) as u64, e)
    };
    proof {
        assert(e <= 254);
        assert(sig >= 1);
        assert(sig < 0x100_0000);
        assert(f32_scaled_149(bits) == sig * pow2((ee - 1) as nat)) by {
            if e == 0 {
                lemma2_to64();
                assert((sig as int) * pow2(0) == sig) by (nonlinear_arith)
                    requires
                        pow2(0) == 1,
                ;
            } else {
                assert((0x80_0000 + (m as int)) * pow2((e - 1) as nat) == (sig as int) * pow2(
                    (ee - 1) as nat,
                )) by (nonlinear_arith)
                    requires
                        sig == 0x80_0000 + (m as int),
                        e == ee,
                        pow2((e - 1) as nat) == pow2((ee - 1) as nat),
                ;
            }
        }
        assert((sig as int) * (sig as int) < 0x1_0000_0000_0000) by (nonlinear_arith)
            requires
                0 <= sig < 0x100_0000,
        ;
        assert((sig as int) * (sig as int) * (smin as int) <= 0x1_0000_0000_0000
            * 0x40000_0000_0000_0000) by (nonlinear_arith)
            requires
                (sig as int) * (sig as int) < 0x1_0000_0000_0000,
                0 <= (sig as int) * (sig as int),
                1 <= smin <= 0x40000_0000_0000_0000,
        ;
    }
    let x: u128 = (sig as u128) * (sig as u128) * smin;
    proof {
        let nv = f32_scaled_149(bits);
        let p = pow2((ee - 1) as nat);
        lemma_pow2_pos((ee - 1) as nat);
        lemma_pow2_adds((ee - 1) as nat, (ee - 1) as nat);
        assert(smin * nv * nv == x * pow2((2 * ee - 2) as nat)) by (nonlinear_arith)
            requires
                nv == sig * p,
                p == pow2((ee - 1) as nat),
                pow2((2 * ee - 2) as nat) == pow2((ee - 1) as nat) * pow2((ee - 1) as nat),
                x == (sig as int) * (sig as int) * (smin as int),
                ee >= 1,
        ;
        assert(x <= 0x1_0000_0000_0000 * 0x40000_0000_0000_0000) by (nonlinear_arith)
            requires
                sig < 0x100_0000,
                1 <= smin <= 0x40000_0000_0000_0000,
                x == (sig as int) * (sig as int) * (smin as int),
        ;
        assert(x >= 1) by (nonlinear_arith)
            requires
                sig >= 1,
                smin >= 1,
                x == (sig as int) * (sig as int) * (smin as int),
        ;
    }
    if 2 * ee >= 300 {
        proof {
            lemma_pow2_pos(298);
            lemma_pow2_adds(298, (2 * ee - 300) as nat);
            lemma_cancel_positive_factor(
                smax as int,
                x * pow2((2 * ee - 300) as nat),
                pow2(298) as int,
            );
            assert((smax as int) * pow2(298) < x * pow2((2 * ee - 300) as nat) * pow2(298)
                <==> aspect_below(s1 as int, s2 as int, bits)) by (nonlinear_arith)
                requires
                    min2(s1 as int, s2 as int) * f32_scaled_149(bits) * f32_scaled_149(bits) == x
                        * pow2((2 * ee - 2) as nat),
                    pow2((2 * ee - 2) as nat) == pow2(298) * pow2((2 * ee - 300) as nat),
                    max2(s1 as int, s2 as int) == smax as int,
                    aspect_below(s1 as int, s2 as int, bits) == (max2(s1 as int, s2 as int) * pow2(
                        298,
                    ) < min2(s1 as int, s2 as int) * f32_scaled_149(bits) * f32_scaled_149(bits)),
            ;
        }
        let mut k: u32 = 2 * ee - 300;
        let mut y: u128 = x;
        while k > 0
            invariant
                aspect_below(s1 as int, s2 as int, bits) <==> (smax as int) < y * pow2(k as nat),
                1 <= y,
                smax <= 0x40000_0000_0000_0000,
                y <= 0x1_0000_0000_0000 * 0x40000_0000_0000_0000 || y <= 2 * smax,
            decreases k,
        {
            if y > smax {
                proof {
                    lemma_pow2_pos(k as nat);
                    lemma_mul_at_least(y as int, pow2(k as nat) as int);
                }
                return true;
            }
            proof {
                lemma_pow2_pos((k - 1) as nat);
                lemma_pow2_unfold(k as nat);
                assert(y * pow2(k as nat) == (2 * y) * pow2((k - 1) as nat)) by (nonlinear_arith)
                    requires
                        pow2(k as nat) == 2 * pow2((k - 1) as nat),
                ;
            }
            y = 2 * y;
            k = k - 1;
        }
        proof {
            lemma2_to64();
            assert(y * pow2(0) == y) by (nonlinear_arith)
                requires
                    pow2(0) == 1,
            ;
        }
        smax < y
    } else {
        proof {
            lemma_pow2_pos((2 * ee - 2) as nat);
            lemma_pow2_adds((2 * ee - 2) as nat, (300 - 2 * ee) as nat);
            lemma_cancel_positive_factor(
                (smax as int) * pow2((300 - 2 * ee) as nat),
                x as int,
                pow2((2 * ee - 2) as nat) as int,
            );
            assert((smax as int) * pow2((300 - 2 * ee) as nat) * pow2((2 * ee - 2) as nat) < x
                * pow2((2 * ee - 2) as nat) <==> aspect_below(s1 as int, s2 as int, bits))
                by (nonlinear_arith)
                requires
                    min2(s1 as int, s2 as int) * f32_scaled_149(bits) * f32_scaled_149(bits) == x
                        * pow2((2 * ee - 2) as nat),
                    pow2(298) == pow2((2 * ee - 2) as nat) * pow2((300 - 2 * ee) as nat),
                    max2(s1 as int, s2 as int) == smax as int,
                    aspect_below(s1 as int, s2 as int, bits) == (max2(s1 as int, s2 as int) * pow2(
                        298,
                    ) < min2(s1 as int, s2 as int) * f32_scaled_149(bits) * f32_scaled_149(bits)),
            ;
        }
        let mut k: u32 = 300 - 2 * ee;
        let mut a: u128 = smax;
        while k > 0
            invariant
                aspect_below(s1 as int, s2 as int, bits) <==> a * pow2(k as nat) < x as int,
                1 <= a,
                x <= 0x1_0000_0000_0000 * 0x40000_0000_0000_0000,
                a <= 0x40000_0000_0000_0000 || a <= 2 * x,
            decreases k,
        {
            if a >= x {
                proof {
                    lemma_pow2_pos(k as nat);
                    lemma_mul_at_least(a as int, pow2(k as nat) as int);
                }
                return false;
            }
            proof {
                lemma_pow2_pos((k - 1) as nat);
                lemma_pow2_unfold(k as nat);
                assert(a * pow2(k as nat) == (2 * a) * pow2((k - 1) as nat)) by (nonlinear_arith)
                    requires
                        pow2(k as nat) == 2 * pow2((k - 1) as nat),
                ;
            }
            a = 2 * a;
            k = k - 1;
        }
        proof {
            lemma2_to64();
            assert(a * pow2(0) == a) by (nonlinear_arith)
                requires
                    pow2(0) == 1,
            ;
        }
        a < x
    }
}

/// The elongation comparison is strict: a rectangle whose aspect ratio
/// equals the threshold exactly is not below it.
pub proof fn lemma_boundary_ratio_not_below(s1: int, s2: int, bits: u32)
    requires
        max2(s1, s2) * pow2(298) == min2(s1, s2) * f32_scaled_149(bits) * f32_scaled_149(bits),
    ensures
        !aspect_below(s1, s2, bits),
{
}

/// Reports whether `bits` encodes a finite positive single-precision number.
pub fn is_positive_finite_f32_bits(bits: u32) -> (res: bool)
    ensures
        res == is_positive_finite_f32(bits),
{
    0 < bits && bits < 0x7F80_0000
}

} // verus!
