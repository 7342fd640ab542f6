//! Generate distance field bitmaps for rendering as pseudo-vector images in
//! shaders.
//!
//! A source image is first reduced to a boolean occupancy grid by comparing
//! each luma sample against a threshold ([`TresholdImage::from_luma`]). For
//! every output pixel, its centre is projected onto the source grid, the
//! neighbourhood is searched ring by ring (in order of increasing Manhattan
//! distance) for the nearest pixel whose fill state differs from the centre's,
//! and the Euclidean distance to that pixel is folded into one byte: values
//! above the 127/128 band mean "inside, farther from the boundary as the value
//! grows", values below mean "outside, closer to the boundary as the value
//! grows" ([`distance_field`], [`get_nearest_pixel_distance`]).
//!
//! Every output byte is a fixed mathematical function of the source image and
//! the options, stated by the `ensures` clauses over [`sampler::spec_byte`]:
//! repeated runs over the same input produce byte-identical output.

use vstd::prelude::*;

pub mod bits;
pub mod grid;
pub mod isqrt;
pub mod quant;
pub mod ring;
pub mod sampler;

pub use grid::TresholdImage;
pub use sampler::distance_field;
pub use sampler::get_nearest_pixel_distance;

verus! {

/// The options passed as the argument to the `distance_field` function.
pub struct Options {
    /// The dimensions of the output image (width, height). The default value
    /// is: (64,64).
    pub size: (usize, usize),

    /// The maximum distance for the projected point of the output image on
    /// the input image to search for the nearest point. The default value
    /// is: 512.
    pub max_distance: usize,

    /// The image value at which to apply the treshold. In a black-white
    /// vector image 127 is probably the best value. The default value is:
    /// 127.
    pub image_treshold: u8,
}

impl Options {
    /// A configuration the sampler accepts: a positive search radius, small
    /// enough that every distance computation fits in 128-bit arithmetic.
    pub open spec fn valid(self) -> bool {
        1 <= self.max_distance && 255 * self.max_distance <= u64::MAX
    }

    /// Tests [`Options::valid`] at run time.
    pub fn is_valid(&self) -> (r: bool)
        ensures
            r == self.valid(),
    {
        1 <= self.max_distance && 255u128 * (self.max_distance as u128) <= u64::MAX as u128
    }
}

impl Default for Options {
    /// Returns:
    /// ```Options {
    ///     size: (64, 64),
    ///     max_distance: 512,
    ///     image_treshold: 127
    /// }```
    fn default() -> (r: Self)
        ensures
            r.size.0 == 64,
            r.size.1 == 64,
            r.max_distance == 512,
            r.image_treshold == 127,
            r.valid(),
    {
        Options { size: (64, 64), max_distance: 512, image_treshold: 127 }
    }
}

} // verus!
