//! Quantization of a squared Euclidean distance into the output byte.
//!
//! The byte encodes the fraction `0.5 + (sqrt(d2) / 2) / m` for a centre
//! inside the filled area and `0.5 - (sqrt(d2) / 2) / m` for one outside,
//! scaled by 255 and truncated toward zero. [`spec_quantize`] states that
//! value exactly over integers: `trunc(255 * (m + sqrt(d2)) / (2 * m))`
//! equals `(255 * m + sqrt_floor(65025 * d2)) / (2 * m)` under integer
//! division, and the outside case likewise with the ceiling square root.

use vstd::arithmetic::div_mod::lemma_div_is_ordered;
use vstd::arithmetic::div_mod::lemma_fundamental_div_mod_converse_div;
use vstd::arithmetic::div_mod::lemma_multiply_divide_le;
use vstd::prelude::*;

use crate::isqrt::isqrt;
use crate::isqrt::lemma_sqrt_floor_bounds;
use crate::isqrt::lemma_sqrt_floor_mono;
use crate::isqrt::lemma_sqrt_floor_square;
use crate::isqrt::sqrt_ceil;
use crate::isqrt::sqrt_floor;

verus! {

/// The output byte for a centre with fill state `inside`, squared Euclidean
/// distance `d2` to the nearest differing pixel, and search radius `m`.
pub open spec fn spec_quantize(inside: bool, d2: int, m: int) -> int
    recommends
        1 <= m,
        0 <= d2 <= m * m,
{
    if inside {
        (255 * m + sqrt_floor(65025 * d2)) / (2 * m)
    } else {
        (255 * m - sqrt_ceil(65025 * d2)) / (2 * m)
    }
}

/// A square root of a value no greater than `b * b` is at most `b`.
proof fn lemma_sqrt_within(t: int, b: int)
    requires
        0 <= t,
        0 <= b,
        t <= b * b,
    ensures
        0 <= sqrt_floor(t) <= b,
        0 <= sqrt_ceil(t) <= b,
        sqrt_floor(t) <= sqrt_ceil(t),
{
    lemma_sqrt_floor_bounds(t);
    lemma_sqrt_floor_square(b);
    lemma_sqrt_floor_mono(t, b * b);
    let s = sqrt_floor(t);
    if s * s != t && s == b {
        assert(t <= s * s);
    }
}

/// `(255 * m) / (2 * m) == 127` and `(256 * m) / (2 * m) == 128`.
proof fn lemma_halfway_quotients(m: int)
    requires
        1 <= m,
    ensures
        (255 * m) / (2 * m) == 127,
        (256 * m) / (2 * m) == 128,
{
    lemma_fundamental_div_mod_converse_div(255 * m, 2 * m, 127, m);
    lemma_fundamental_div_mod_converse_div(256 * m, 2 * m, 128, 0);
}

/// The byte value stays in range: `0 <= spec_quantize(..) <= 255`.
pub proof fn lemma_quantize_range(inside: bool, d2: int, m: int)
    requires
        1 <= m,
        0 <= d2 <= m * m,
    ensures
        0 <= spec_quantize(inside, d2, m) <= 255,
{
    let t = 65025 * d2;
    assert(t <= (255 * m) * (255 * m)) by (nonlinear_arith)
        requires
            0 <= d2 <= m * m,
            t == 65025 * d2,
    ;
    lemma_sqrt_within(t, 255 * m);
    if inside {
        assert(255 * m + sqrt_floor(t) <= 255 * (2 * m));
        lemma_multiply_divide_le(255 * m + sqrt_floor(t), 2 * m, 255);
        assert(0 <= (255 * m + sqrt_floor(t)) / (2 * m)) by {
            lemma_div_is_ordered(0, 255 * m + sqrt_floor(t), 2 * m);
        }
    } else {
        assert(255 * m - sqrt_ceil(t) <= 255 * (2 * m));
        lemma_multiply_divide_le(255 * m - sqrt_ceil(t), 2 * m, 255);
        assert(0 <= (255 * m - sqrt_ceil(t)) / (2 * m)) by {
            lemma_div_is_ordered(0, 255 * m - sqrt_ceil(t), 2 * m);
        }
    }
}

/// Boundary sign: a centre outside the filled area maps strictly below the
/// 128 band, whatever the distance; a centre inside maps to 127 at least,
/// and to 128 or more as soon as `255 * sqrt(d2)` reaches `m` — that is,
/// `65025 * d2 >= m * m`. The value 127 for an inside centre is the
/// fixed-point truncation at the exact boundary.
pub proof fn lemma_boundary_sign(inside: bool, d2: int, m: int)
    requires
        1 <= m,
        0 <= d2 <= m * m,
    ensures
        !inside ==> spec_quantize(false, d2, m) < 128,
        inside ==> spec_quantize(true, d2, m) >= 127,
        inside && 65025 * d2 >= m * m ==> spec_quantize(true, d2, m) >= 128,
{
    let t = 65025 * d2;
    assert(t <= (255 * m) * (255 * m)) by (nonlinear_arith)
        requires
            0 <= d2 <= m * m,
            t == 65025 * d2,
    ;
    lemma_sqrt_within(t, 255 * m);
    lemma_halfway_quotients(m);
    if inside {
        lemma_div_is_ordered(255 * m, 255 * m + sqrt_floor(t), 2 * m);
        if 65025 * d2 >= m * m {
            assert(sqrt_floor(t) >= m) by {
                lemma_sqrt_floor_mono(m * m, t);
                lemma_sqrt_floor_square(m);
            }
            lemma_div_is_ordered(256 * m, 255 * m + sqrt_floor(t), 2 * m);
        }
    } else {
        lemma_div_is_ordered(255 * m - sqrt_ceil(t), 255 * m, 2 * m);
    }
}

/// Monotonicity: for a fixed sign and radius, a greater squared distance
/// never moves the byte toward the 127/128 boundary — deeper inside grows
/// toward 255, deeper outside falls toward 0.
pub proof fn lemma_quantize_monotone(inside: bool, d2a: int, d2b: int, m: int)
    requires
        1 <= m,
        0 <= d2a <= d2b,
        d2b <= m * m,
    ensures
        inside ==> spec_quantize(true, d2a, m) <= spec_quantize(true, d2b, m),
        !inside ==> spec_quantize(false, d2b, m) <= spec_quantize(false, d2a, m),
{
    let ta = 65025 * d2a;
    let tb = 65025 * d2b;
    lemma_sqrt_floor_mono(ta, tb);
    lemma_sqrt_floor_bounds(ta);
    lemma_sqrt_floor_bounds(tb);
    if inside {
        lemma_div_is_ordered(255 * m + sqrt_floor(ta), 255 * m + sqrt_floor(tb), 2 * m);
    } else {
        assert(sqrt_ceil(ta) <= sqrt_ceil(tb)) by {
            if sqrt_floor(ta) == sqrt_floor(tb) && sqrt_floor(ta) * sqrt_floor(ta) != ta {
                assert(sqrt_floor(tb) * sqrt_floor(tb) != tb);
            }
        }
        lemma_div_is_ordered(255 * m - sqrt_ceil(tb), 255 * m - sqrt_ceil(ta), 2 * m);
    }
}

/// Saturation: at the clamped distance `m` the byte reaches the extreme of
/// its band — 255 inside, 0 outside.
pub proof fn lemma_quantize_saturates(inside: bool, m: int)
    requires
        1 <= m,
    ensures
        spec_quantize(true, m * m, m) == 255,
        spec_quantize(false, m * m, m) == 0,
{
    let t = 65025 * (m * m);
    assert(t == (255 * m) * (255 * m)) by (nonlinear_arith)
        requires
            t == 65025 * (m * m),
    ;
    lemma_sqrt_floor_square(255 * m);
    lemma_fundamental_div_mod_converse_div(255 * (2 * m), 2 * m, 255, 0);
    assert(255 * m + sqrt_floor(t) == 255 * (2 * m));
    lemma_fundamental_div_mod_converse_div(0, 2 * m, 0, 0);
    assert(255 * m - sqrt_ceil(t) == 0);
    assert(0 <= m * m) by (nonlinear_arith)
        requires
            1 <= m,
    ;
}

/// Folds the distance and the inside/outside sign into one byte, the exact
/// truncation of `255 * (0.5 +/- (sqrt(d2) / 2) / m)`.
pub fn quantize(inside: bool, d2: u128, m: u128) -> (r: u8)
    requires
        1 <= m,
        255 * m <= u64::MAX,
        d2 <= m * m,
    ensures
        r == spec_quantize(inside, d2 as int, m as int),
{
    proof {
        assert(65025 * (d2 as int) <= (255 * (m as int)) * (255 * (m as int)))
            by (nonlinear_arith)
            requires
                0 <= d2 as int <= (m as int) * (m as int),
        ;
        assert((255 * (m as int)) * (255 * (m as int)) <= (u64::MAX as int) * (u64::MAX as int))
            by (nonlinear_arith)
            requires
                0 <= 255 * (m as int) <= u64::MAX as int,
        ;
        assert((u64::MAX as int) * (u64::MAX as int) <= u128::MAX as int) by (nonlinear_arith)
            requires
                u128::MAX as int == (u64::MAX as int + 1) * (u64::MAX as int + 1) - 1,
        ;
        lemma_sqrt_within(65025 * (d2 as int), 255 * (m as int));
        lemma_quantize_range(inside, d2 as int, m as int);
    }
    let t: u128 = 65025 * d2;
    let s: u128 = isqrt(t);
    if inside {
        let b: u128 = (255 * m + s) / (2 * m);
        b as u8
    } else {
        proof {
            assert((s as int) * (s as int) <= (u64::MAX as int) * (u64::MAX as int))
                by (nonlinear_arith)
                requires
                    0 <= s as int <= u64::MAX as int,
            ;
        }
        let sc: u128 = if s * s == t {
            s
        } else {
            s + 1
        };
        proof {
            lemma_sqrt_floor_bounds(t as int);
        }
        let b: u128 = (255 * m - sc) / (2 * m);
        b as u8
    }
}

} // verus!
