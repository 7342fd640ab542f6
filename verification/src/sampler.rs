//! The field sampler: projects every output pixel onto the source grid,
//! walks the diamond rings outward for the first pixel whose fill state
//! differs from the centre's, and quantizes the Euclidean distance to it.
//!
//! The search accepts the first state flip in ring order, then reports the
//! Euclidean distance to that pixel. Ring order does not imply
//! Euclidean-distance order, so this is a documented approximation of the
//! true nearest boundary, kept for its visual characteristics: within one
//! ring the fixed traversal of [`ring_offset`] decides ties.

use vstd::arithmetic::div_mod::lemma_multiply_divide_lt;
use vstd::prelude::*;

use crate::grid::TresholdImage;
use crate::quant::lemma_boundary_sign;
use crate::quant::lemma_quantize_monotone;
use crate::quant::lemma_quantize_saturates;
use crate::quant::quantize;
use crate::quant::spec_quantize;
use crate::ring::dist2_of;
use crate::ring::lemma_dist2_bounds;
use crate::ring::ring_offset;
use crate::ring::ring_offset_exec;
use crate::Options;

verus! {

/// Search step `(d, i)` finds a state flip: offset `i` of ring `d` lands
/// inside the grid on a pixel whose fill state differs from the centre's.
pub open spec fn hit(img: TresholdImage, cx: int, cy: int, inside: bool, d: int, i: int) -> bool {
    let p = ring_offset(d, i);
    img.in_bounds(cx + p.0, cy + p.1) && img.occupied(cx + p.0, cy + p.1) != inside
}

/// The first hit of ring `d` at offset index `i` or later, if any.
pub open spec fn first_hit_in_ring(
    img: TresholdImage,
    cx: int,
    cy: int,
    inside: bool,
    d: int,
    i: int,
) -> Option<int>
    decreases 4 * d - i,
{
    if i < 0 || 4 * d <= i {
        None
    } else if hit(img, cx, cy, inside, d, i) {
        Some(i)
    } else {
        first_hit_in_ring(img, cx, cy, inside, d, i + 1)
    }
}

/// The first hit in rings `d` through `m`, as a pair of ring number and
/// offset index, if any.
pub open spec fn first_hit_from(
    img: TresholdImage,
    cx: int,
    cy: int,
    inside: bool,
    d: int,
    m: int,
) -> Option<(int, int)>
    decreases m + 1 - d,
{
    if d > m {
        None
    } else {
        match first_hit_in_ring(img, cx, cy, inside, d, 0) {
            Some(i) => Some((d, i)),
            None => first_hit_from(img, cx, cy, inside, d + 1, m),
        }
    }
}

/// The first state flip the search finds around centre `(cx, cy)` within
/// `m` rings.
pub open spec fn spec_first_hit(img: TresholdImage, cx: int, cy: int, m: int) -> Option<
    (int, int),
> {
    first_hit_from(img, cx, cy, img.occupied(cx, cy), 1, m)
}

/// The squared Euclidean distance from the centre to the pixel the search
/// accepts, clamped to `m * m` when no state flip lies within `m` rings.
pub open spec fn spec_found_dist2(img: TresholdImage, cx: int, cy: int, m: int) -> int {
    match spec_first_hit(img, cx, cy, m) {
        Some(p) => dist2_of(p.0, p.1),
        None => m * m,
    }
}

/// The byte sampled at source centre `(cx, cy)`: the quantized Euclidean
/// distance to the first state flip, clamped to `m` when no flip lies
/// within `m` rings.
pub open spec fn spec_sample(img: TresholdImage, cx: int, cy: int, m: int) -> int {
    spec_quantize(img.occupied(cx, cy), spec_found_dist2(img, cx, cy, m), m)
}

/// The projected centre of an output coordinate on the source axis:
/// integer (floor) scaling, a nearest-neighbour downsample.
pub open spec fn spec_center(pos: int, src_dim: int, out_dim: int) -> int {
    (pos * src_dim) / out_dim
}

/// The byte of output pixel `(out_x, out_y)` under the given options.
pub open spec fn spec_byte(img: TresholdImage, out_x: int, out_y: int, opts: Options) -> int {
    spec_sample(
        img,
        spec_center(out_x, img.spec_width(), opts.size.0 as int),
        spec_center(out_y, img.spec_height(), opts.size.1 as int),
        opts.max_distance as int,
    )
}

/// `first_hit_in_ring` returns the least hit index at `i` or later, and
/// `None` exactly when the rest of the ring holds no hit.
proof fn lemma_first_hit_in_ring_char(
    img: TresholdImage,
    cx: int,
    cy: int,
    inside: bool,
    d: int,
    i: int,
)
    requires
        0 <= i,
    ensures
        match first_hit_in_ring(img, cx, cy, inside, d, i) {
            Some(i0) => i <= i0 < 4 * d && hit(img, cx, cy, inside, d, i0) && (forall|j: int|
                i <= j < i0 ==> !hit(img, cx, cy, inside, d, j)),
            None => forall|j: int| i <= j < 4 * d ==> !hit(img, cx, cy, inside, d, j),
        },
    decreases (if i < 4 * d {
        4 * d - i
    } else {
        0
    }),
{
    if i < 4 * d && !hit(img, cx, cy, inside, d, i) {
        lemma_first_hit_in_ring_char(img, cx, cy, inside, d, i + 1);
    }
}

/// `first_hit_from` returns the lexicographically least hit — no earlier
/// ring holds one, and no earlier index of its own ring — and `None`
/// exactly when rings `d..=m` hold none.
proof fn lemma_first_hit_from_char(
    img: TresholdImage,
    cx: int,
    cy: int,
    inside: bool,
    d: int,
    m: int,
)
    requires
        1 <= d,
    ensures
        match first_hit_from(img, cx, cy, inside, d, m) {
            Some(p) => d <= p.0 <= m && 0 <= p.1 < 4 * p.0 && hit(img, cx, cy, inside, p.0, p.1)
                && (forall|dd: int, j: int|
                d <= dd < p.0 && 0 <= j < 4 * dd ==> !hit(img, cx, cy, inside, dd, j)) && (
            forall|j: int| 0 <= j < p.1 ==> !hit(img, cx, cy, inside, p.0, j)),
            None => forall|dd: int, j: int|
                d <= dd <= m && 0 <= j < 4 * dd ==> !hit(img, cx, cy, inside, dd, j),
        },
    decreases (if d <= m {
        m + 1 - d
    } else {
        0
    }),
{
    if d <= m {
        lemma_first_hit_in_ring_char(img, cx, cy, inside, d, 0);
        if first_hit_in_ring(img, cx, cy, inside, d, 0) is None {
            lemma_first_hit_from_char(img, cx, cy, inside, d + 1, m);
        }
    }
}

/// Walks rings `1..=m` around `(cx, cy)` in order and returns the squared
/// Euclidean distance to the first pixel whose state differs from the
/// centre's, or `None` when the search saturates.
#[verifier::loop_isolation(false)]
fn search(input: &TresholdImage, cx: usize, cy: usize, m: u64) -> (r: Option<u128>)
    requires
        input.wf(),
        input.in_bounds(cx as int, cy as int),
        1 <= m,
        255 * m <= u64::MAX,
    ensures
        ({
            let fh = spec_first_hit(*input, cx as int, cy as int, m as int);
            match fh {
                Some(p) => r matches Some(d2) && d2 == dist2_of(p.0, p.1),
                None => r is None,
            }
        }),
{
    let inside = input.get_pixel(cx, cy);
    let w = input.width();
    let h = input.height();
    proof {
        // 255 * m <= u64::MAX bounds the radius by u64::MAX / 255, which
        // keeps every ring coordinate and squared distance within i128
        assert(m <= 72340172838076673);
    }
    let mut d: u64 = 1;
    while d <= m
        invariant
            1 <= d <= m + 1,
            first_hit_from(*input, cx as int, cy as int, inside, 1, m as int) == first_hit_from(
                *input,
                cx as int,
                cy as int,
                inside,
                d as int,
                m as int,
            ),
        decreases m + 1 - d,
    {
        let four_d: u64 = 4 * d;
        let mut i: u64 = 0;
        while i < four_d
            invariant
                d <= m,
                i <= four_d,
                forall|j: int| 0 <= j < i ==> !hit(*input, cx as int, cy as int, inside, d as int, j),
            decreases four_d - i,
        {
            let (ox, oy) = ring_offset_exec(d, i);
            let x: i128 = cx as i128 + ox;
            let y: i128 = cy as i128 + oy;
            if 0 <= x && x < w as i128 && 0 <= y && y < h as i128 {
                if input.get_pixel(x as usize, y as usize) != inside {
                    proof {
                        assert(hit(*input, cx as int, cy as int, inside, d as int, i as int));
                        lemma_first_hit_in_ring_char(
                            *input,
                            cx as int,
                            cy as int,
                            inside,
                            d as int,
                            0,
                        );
                        assert(first_hit_in_ring(*input, cx as int, cy as int, inside, d as int, 0)
                            == Some(i as int));
                        lemma_dist2_bounds(d as int, i as int);
                        assert(0 <= (ox as int) * (ox as int) <= 72340172838076673
                            * 72340172838076673) by (nonlinear_arith)
                            requires
                                -72340172838076673 <= ox as int <= 72340172838076673,
                        ;
                        assert(0 <= (oy as int) * (oy as int) <= 72340172838076673
                            * 72340172838076673) by (nonlinear_arith)
                            requires
                                -72340172838076673 <= oy as int <= 72340172838076673,
                        ;
                    }
                    let d2: i128 = ox * ox + oy * oy;
                    return Some(d2 as u128);
                }
            }
            i = i + 1;
        }
        proof {
            lemma_first_hit_in_ring_char(*input, cx as int, cy as int, inside, d as int, 0);
        }
        d = d + 1;
    }
    None
}

/// Projects one output coordinate onto the source axis by integer scaling;
/// the projected centre always lands inside the source dimension.
fn project(pos: usize, src_dim: usize, out_dim: usize) -> (r: usize)
    requires
        1 <= src_dim,
        1 <= out_dim,
        pos < out_dim,
    ensures
        r == spec_center(pos as int, src_dim as int, out_dim as int),
        r < src_dim,
{
    proof {
        assert((pos as int) * (src_dim as int) <= (u64::MAX as int) * (u64::MAX as int))
            by (nonlinear_arith)
            requires
                0 <= pos as int <= u64::MAX as int,
                0 <= src_dim as int <= u64::MAX as int,
        ;
        assert((u64::MAX as int) * (u64::MAX as int) <= u128::MAX as int) by (nonlinear_arith)
            requires
                u128::MAX as int == (u64::MAX as int + 1) * (u64::MAX as int + 1) - 1,
        ;
    }
    let wide: u128 = (pos as u128) * (src_dim as u128);
    let q: u128 = wide / (out_dim as u128);
    proof {
        assert(wide < (out_dim as int) * (src_dim as int)) by (nonlinear_arith)
            requires
                wide == (pos as int) * (src_dim as int),
                (pos as int) < (out_dim as int),
                1 <= src_dim as int,
        ;
        lemma_multiply_divide_lt(wide as int, out_dim as int, src_dim as int);
    }
    q as usize
}

/// The byte of one output pixel: project the centre, classify it, search
/// the rings, quantize the found distance — the per-pixel operation of the
/// field sampler.
pub fn get_nearest_pixel_distance(
    input: &TresholdImage,
    out_x: usize,
    out_y: usize,
    options: &Options,
) -> (r: u8)
    requires
        input.wf(),
        options.valid(),
        out_x < options.size.0,
        out_y < options.size.1,
    ensures
        r == spec_byte(*input, out_x as int, out_y as int, *options),
{
    let cx = project(out_x, input.width(), options.size.0);
    let cy = project(out_y, input.height(), options.size.1);
    let m: u64 = options.max_distance as u64;
    let inside = input.get_pixel(cx, cy);
    let found = search(input, cx, cy, m);
    proof {
        lemma_first_hit_from_char(*input, cx as int, cy as int, inside, 1, m as int);
        assert((u64::MAX as int) * (u64::MAX as int) <= u128::MAX as int) by (nonlinear_arith)
            requires
                u128::MAX as int == (u64::MAX as int + 1) * (u64::MAX as int + 1) - 1,
        ;
        if let Some(p) = spec_first_hit(*input, cx as int, cy as int, m as int) {
            lemma_dist2_bounds(p.0, p.1);
            assert(p.0 * p.0 <= (m as int) * (m as int)) by (nonlinear_arith)
                requires
                    1 <= p.0 <= m as int,
            ;
        }
    }
    match found {
        Some(d2) => quantize(inside, d2, m as u128),
        None => {
            proof {
                assert((m as int) * (m as int) <= (u64::MAX as int) * (u64::MAX as int))
                    by (nonlinear_arith)
                    requires
                        0 <= m as int <= u64::MAX as int,
                ;
            }
            let mm: u128 = (m as u128) * (m as u128);
            quantize(inside, mm, m as u128)
        },
    }
}

/// Generates the full output grid, row by row: cell `(x, y)` of the result
/// is the sampled byte for that output pixel. A zero output dimension
/// yields an empty grid.
#[verifier::loop_isolation(false)]
pub fn distance_field(input: &TresholdImage, options: &Options) -> (r: Vec<u8>)
    requires
        input.wf(),
        options.valid(),
        options.size.0 * options.size.1 <= usize::MAX,
    ensures
        r@.len() == options.size.0 * options.size.1,
        forall|ox: int, oy: int|
            0 <= ox < options.size.0 && 0 <= oy < options.size.1 ==> r@[oy * options.size.0 + ox]
                == spec_byte(*input, ox, oy, *options),
{
    let w_out: usize = options.size.0;
    let h_out: usize = options.size.1;
    let mut out: Vec<u8> = Vec::new();
    let mut oy: usize = 0;
    while oy < h_out
        invariant
            oy <= h_out,
            out@.len() == oy * w_out,
            forall|x: int, y: int|
                0 <= x < w_out && 0 <= y < oy ==> out@[y * w_out + x] == spec_byte(
                    *input,
                    x,
                    y,
                    *options,
                ),
        decreases h_out - oy,
    {
        let mut ox: usize = 0;
        proof {
            assert((oy as int) * (w_out as int) + (w_out as int) <= (h_out as int) * (
            w_out as int)) by (nonlinear_arith)
                requires
                    (oy as int) < (h_out as int),
                    0 <= w_out as int,
            ;
            assert((h_out as int) * (w_out as int) == (w_out as int) * (h_out as int))
                by (nonlinear_arith);
        }
        while ox < w_out
            invariant
                oy < h_out,
                ox <= w_out,
                out@.len() == oy * w_out + ox,
                forall|x: int, y: int|
                    0 <= x < w_out && 0 <= y < oy ==> out@[y * w_out + x] == spec_byte(
                        *input,
                        x,
                        y,
                        *options,
                    ),
                forall|x: int|
                    0 <= x < ox ==> out@[oy * w_out + x] == spec_byte(*input, x, oy as int, *options),
            decreases w_out - ox,
        {
            let b = get_nearest_pixel_distance(input, ox, oy, options);
            out.push(b);
            proof {
                assert forall|x: int, y: int| 0 <= x < w_out && 0 <= y < oy implies out@[y * w_out
                    + x] == spec_byte(*input, x, y, *options) by {
                    assert(y * w_out + x < oy * w_out) by (nonlinear_arith)
                        requires
                            0 <= x < w_out as int,
                            0 <= y < oy as int,
                    ;
                }
            }
            ox = ox + 1;
        }
        proof {
            assert((oy as int + 1) * (w_out as int) == (oy as int) * (w_out as int) + (
            w_out as int)) by (nonlinear_arith);
        }
        oy = oy + 1;
    }
    out
}

/// The accepted squared distance is positive and never exceeds the clamp
/// `m * m`.
pub proof fn lemma_found_dist2_in_range(img: TresholdImage, cx: int, cy: int, m: int)
    requires
        1 <= m,
    ensures
        1 <= spec_found_dist2(img, cx, cy, m) <= m * m,
{
    let inside = img.occupied(cx, cy);
    lemma_first_hit_from_char(img, cx, cy, inside, 1, m);
    match spec_first_hit(img, cx, cy, m) {
        Some(p) => {
            lemma_dist2_bounds(p.0, p.1);
            assert(p.0 * p.0 <= m * m) by (nonlinear_arith)
                requires
                    1 <= p.0 <= m,
            ;
        },
        None => {
            assert(1 <= m * m) by (nonlinear_arith)
                requires
                    1 <= m,
            ;
        },
    }
}

/// Boundary sign: wherever the projected centre lies inside the filled
/// area, the sampled byte reaches 127 at least, and wherever it lies
/// outside, the byte stays strictly below 128. The value 127 for an inside
/// centre is the fixed-point truncation at the exact boundary; by
/// [`lemma_boundary_sign`] the byte reaches 128 as soon as
/// `255 * sqrt(d2)` reaches `m`.
pub proof fn lemma_sample_sign(img: TresholdImage, cx: int, cy: int, m: int)
    requires
        img.wf(),
        img.in_bounds(cx, cy),
        1 <= m,
    ensures
        img.occupied(cx, cy) ==> spec_sample(img, cx, cy, m) >= 127,
        !img.occupied(cx, cy) ==> spec_sample(img, cx, cy, m) < 128,
{
    lemma_found_dist2_in_range(img, cx, cy, m);
    lemma_boundary_sign(img.occupied(cx, cy), spec_found_dist2(img, cx, cy, m), m);
}

/// Saturation: when no state flip lies within `m` rings of the centre, the
/// sampled byte is the extreme of its band — 255 for a centre inside the
/// filled area, 0 for one outside.
pub proof fn lemma_sample_saturates(img: TresholdImage, cx: int, cy: int, m: int)
    requires
        img.wf(),
        img.in_bounds(cx, cy),
        1 <= m,
        spec_first_hit(img, cx, cy, m) is None,
    ensures
        spec_sample(img, cx, cy, m) == if img.occupied(cx, cy) {
            255int
        } else {
            0int
        },
{
    lemma_quantize_saturates(img.occupied(cx, cy), m);
}

/// Monotonicity: between two centres on the same side of the boundary, the
/// one whose accepted boundary pixel lies farther away maps no closer to
/// the 127/128 band — deeper inside means a byte at least as high, deeper
/// outside a byte at least as low.
pub proof fn lemma_sample_monotone(
    img: TresholdImage,
    cxa: int,
    cya: int,
    cxb: int,
    cyb: int,
    m: int,
)
    requires
        img.wf(),
        img.in_bounds(cxa, cya),
        img.in_bounds(cxb, cyb),
        1 <= m,
        img.occupied(cxa, cya) == img.occupied(cxb, cyb),
        spec_found_dist2(img, cxa, cya, m) <= spec_found_dist2(img, cxb, cyb, m),
    ensures
        img.occupied(cxa, cya) ==> spec_sample(img, cxa, cya, m) <= spec_sample(img, cxb, cyb, m),
        !img.occupied(cxa, cya) ==> spec_sample(img, cxb, cyb, m) <= spec_sample(
            img,
            cxa,
            cya,
            m,
        ),
{
    lemma_found_dist2_in_range(img, cxa, cya, m);
    lemma_found_dist2_in_range(img, cxb, cyb, m);
    lemma_quantize_monotone(
        img.occupied(cxa, cya),
        spec_found_dist2(img, cxa, cya, m),
        spec_found_dist2(img, cxb, cyb, m),
        m,
    );
}

/// Downsampling identity: when the output size equals the source
/// dimensions, the projection is the identity map, so output pixel
/// `(x, y)` samples with source pixel `(x, y)` as its centre.
pub proof fn lemma_identity_projection(img: TresholdImage, out_x: int, out_y: int, opts: Options)
    requires
        img.wf(),
        opts.size.0 == img.spec_width(),
        opts.size.1 == img.spec_height(),
        0 <= out_x < opts.size.0,
        0 <= out_y < opts.size.1,
    ensures
        spec_byte(img, out_x, out_y, opts) == spec_sample(
            img,
            out_x,
            out_y,
            opts.max_distance as int,
        ),
{
    vstd::arithmetic::div_mod::lemma_div_by_multiple(out_x, img.spec_width());
    vstd::arithmetic::div_mod::lemma_div_by_multiple(out_y, img.spec_height());
}

/// Determinism: the output grid is a function of the source image and the
/// options alone. Any two grids that satisfy the contract of
/// [`distance_field`] for the same inputs are byte-identical.
pub proof fn lemma_field_deterministic(
    img: TresholdImage,
    opts: Options,
    r1: Seq<u8>,
    r2: Seq<u8>,
)
    requires
        r1.len() == opts.size.0 * opts.size.1,
        r2.len() == opts.size.0 * opts.size.1,
        forall|ox: int, oy: int|
            0 <= ox < opts.size.0 && 0 <= oy < opts.size.1 ==> r1[oy * opts.size.0 + ox]
                == spec_byte(img, ox, oy, opts),
        forall|ox: int, oy: int|
            0 <= ox < opts.size.0 && 0 <= oy < opts.size.1 ==> r2[oy * opts.size.0 + ox]
                == spec_byte(img, ox, oy, opts),
    ensures
        r1 == r2,
{
    let w = opts.size.0 as int;
    let h = opts.size.1 as int;
    assert forall|k: int| 0 <= k < r1.len() implies r1[k] == r2[k] by {
        let oy = k / w;
        let ox = k % w;
        assert(0 < w) by (nonlinear_arith)
            requires
                0 <= w,
                0 <= h,
                0 <= k < w * h,
        ;
        vstd::arithmetic::div_mod::lemma_fundamental_div_mod(k, w);
        vstd::arithmetic::div_mod::lemma_remainder_lower(k, w);
        vstd::arithmetic::div_mod::lemma_remainder_upper(k, w);
        assert(0 <= oy < h) by (nonlinear_arith)
            requires
                k == w * oy + ox,
                0 <= ox < w,
                0 <= k < w * h,
        ;
        assert(oy * w + ox == k);
        assert(r1[oy * w + ox] == spec_byte(img, ox, oy, opts));
        assert(r2[oy * w + ox] == spec_byte(img, ox, oy, opts));
    }
    assert(r1 =~= r2);
}

} // verus!
