//! The diamond rings the sampler walks: all offsets at a fixed Manhattan
//! distance from the centre, in the fixed traversal order that makes the
//! search reproducible.
//!
//! Ring `d` holds `4 * d` offsets, visited counter-clockwise from `(d, 0)`
//! in four diagonal legs: down-left to `(0, d)`, up-left to `(-d, 0)`,
//! up-right to `(0, -d)` and down-right back towards `(d, 0)`.

use vstd::prelude::*;

verus! {

/// The `i`-th offset of ring `d`, for `0 <= i < 4 * d`.
pub open spec fn ring_offset(d: int, i: int) -> (int, int)
    recommends
        1 <= d,
        0 <= i < 4 * d,
{
    if i <= d {
        (d - i, i)
    } else if i <= 2 * d {
        (d - i, 2 * d - i)
    } else if i <= 3 * d {
        (i - 3 * d, 2 * d - i)
    } else {
        (i - 3 * d, i - 4 * d)
    }
}

/// The squared Euclidean length of the `i`-th offset of ring `d`.
pub open spec fn dist2_of(d: int, i: int) -> int {
    let p = ring_offset(d, i);
    p.0 * p.0 + p.1 * p.1
}

/// Every offset of ring `d` has Manhattan length exactly `d`, so its squared
/// Euclidean length lies between 1 and `d * d`.
pub proof fn lemma_dist2_bounds(d: int, i: int)
    requires
        1 <= d,
        0 <= i < 4 * d,
    ensures
        1 <= dist2_of(d, i) <= d * d,
{
    let p = ring_offset(d, i);
    let a = if p.0 >= 0 {
        p.0
    } else {
        -p.0
    };
    let b = if p.1 >= 0 {
        p.1
    } else {
        -p.1
    };
    assert(a + b == d && a >= 0 && b >= 0);
    assert(1 <= a * a + b * b <= d * d) by (nonlinear_arith)
        requires
            a >= 0,
            b >= 0,
            a + b == d,
            1 <= d,
    ;
    assert(p.0 * p.0 == a * a && p.1 * p.1 == b * b) by (nonlinear_arith)
        requires
            a == p.0 || a == -p.0,
            b == p.1 || b == -p.1,
    ;
}

/// Computes [`ring_offset`] for one step of the search.
pub(crate) fn ring_offset_exec(d: u64, i: u64) -> (r: (i128, i128))
    requires
        1 <= d,
        d <= u64::MAX / 4,
        i < 4 * d,
    ensures
        r.0 == ring_offset(d as int, i as int).0,
        r.1 == ring_offset(d as int, i as int).1,
        -(d as int) <= r.0 <= d as int,
        -(d as int) <= r.1 <= d as int,
{
    let dd: i128 = d as i128;
    let ii: i128 = i as i128;
    if ii <= dd {
        (dd - ii, ii)
    } else if ii <= 2 * dd {
        (dd - ii, 2 * dd - ii)
    } else if ii <= 3 * dd {
        (ii - 3 * dd, 2 * dd - ii)
    } else {
        (ii - 3 * dd, ii - 4 * dd)
    }
}

} // verus!
