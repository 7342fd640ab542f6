//! The occupancy grid: a source image reduced to one bit per pixel by a
//! luma threshold.

use vstd::prelude::*;

use crate::bits::bits_of;
use crate::bits::bv_get;
use crate::bits::bv_new;
use crate::bits::bv_push;
use crate::bits::BitGrid;

verus! {

/// Treshold image as a boolean vector: cell `(x, y)` is `true` when the
/// source luma sample there lies strictly above the treshold.
pub struct TresholdImage {
    bits: BitGrid,
    width: usize,
    height: usize,
}

impl TresholdImage {
    /// The occupancy grid as a flat sequence, row by row.
    pub closed spec fn grid(self) -> Seq<bool> {
        bits_of(self.bits)
    }

    pub closed spec fn spec_width(self) -> int {
        self.width as int
    }

    pub closed spec fn spec_height(self) -> int {
        self.height as int
    }

    /// A well-formed grid: at least one source pixel, one bit stored for
    /// each of them, and few enough of them for a packed bit-vector.
    pub open spec fn wf(self) -> bool {
        &&& 1 <= self.spec_width()
        &&& 1 <= self.spec_height()
        &&& self.grid().len() == self.spec_width() * self.spec_height()
        &&& self.grid().len() <= usize::MAX / 8
    }

    pub open spec fn in_bounds(self, x: int, y: int) -> bool {
        0 <= x < self.spec_width() && 0 <= y < self.spec_height()
    }

    /// Fill state of source pixel `(x, y)`.
    pub open spec fn occupied(self, x: int, y: int) -> bool
        recommends
            self.wf(),
            self.in_bounds(x, y),
    {
        self.grid()[y * self.spec_width() + x]
    }

    /// Builds the occupancy grid from a row-major grid of 8-bit luma
    /// samples: cell `(x, y)` becomes `luma(x, y) > treshold`, so a sample
    /// exactly equal to the treshold counts as not filled.
    pub fn from_luma(data: &Vec<u8>, width: usize, height: usize, treshold: u8) -> (r: Self)
        requires
            1 <= width,
            1 <= height,
            data@.len() == width * height,
            width * height <= usize::MAX / 8,
        ensures
            r.wf(),
            r.spec_width() == width,
            r.spec_height() == height,
            forall|x: int, y: int|
                r.in_bounds(x, y) ==> r.occupied(x, y) == (data@[y * width + x] > treshold),
    {
        let total: usize = width * height;
        let mut bits = bv_new();
        let mut idx: usize = 0;
        while idx < total
            invariant
                total == width * height,
                data@.len() == total,
                idx <= total,
                total <= usize::MAX / 8,
                bits_of(bits).len() == idx,
                forall|j: int| 0 <= j < idx ==> bits_of(bits)[j] == (data@[j] > treshold),
            decreases total - idx,
        {
            bv_push(&mut bits, data[idx] > treshold);
            idx = idx + 1;
        }
        let r = TresholdImage { bits, width, height };
        proof {
            assert forall|x: int, y: int| r.in_bounds(x, y) implies r.occupied(x, y) == (data@[y
                * width + x] > treshold) by {
                assert(0 <= y * width + x < width * height) by (nonlinear_arith)
                    requires
                        0 <= x < width,
                        0 <= y < height,
                ;
            }
        }
        r
    }

    /// Get a pixel as a boolean.
    pub fn get_pixel(&self, x: usize, y: usize) -> (r: bool)
        requires
            self.wf(),
            self.in_bounds(x as int, y as int),
        ensures
            r == self.occupied(x as int, y as int),
    {
        proof {
            assert(0 <= y * self.spec_width() + x < self.spec_width() * self.spec_height())
                by (nonlinear_arith)
                requires
                    0 <= x < self.spec_width(),
                    0 <= y < self.spec_height(),
            ;
        }
        let index: usize = x + y * self.width;
        bv_get(&self.bits, index)
    }

    /// The width of the source image, in pixels.
    pub fn width(&self) -> (r: usize)
        ensures
            r == self.spec_width(),
    {
        self.width
    }

    /// The height of the source image, in pixels.
    pub fn height(&self) -> (r: usize)
        ensures
            r == self.spec_height(),
    {
        self.height
    }
}

} // verus!
