use distance_field::distance_field;
use distance_field::get_nearest_pixel_distance;
use distance_field::Options;
use distance_field::TresholdImage;

/// A 4x4 source that is a solid 2x2 filled square centred in an empty
/// field.
fn square_image() -> TresholdImage {
    let mut luma: Vec<u8> = vec![0; 16];
    for (x, y) in [(1, 1), (2, 1), (1, 2), (2, 2)] {
        luma[y * 4 + x] = 255;
    }
    TresholdImage::from_luma(&luma, 4, 4, 127)
}

#[test]
fn default_options() {
    let options = Options::default();
    assert_eq!(options.size, (64, 64));
    assert_eq!(options.max_distance, 512);
    assert_eq!(options.image_treshold, 127);
}

#[test]
fn treshold_is_strict() {
    // a sample exactly equal to the treshold counts as not filled
    let luma: Vec<u8> = vec![127, 128];
    let img = TresholdImage::from_luma(&luma, 2, 1, 127);
    assert!(!img.get_pixel(0, 0));
    assert!(img.get_pixel(1, 0));
}

#[test]
fn concrete_square_field() {
    let img = square_image();
    let options = Options { size: (4, 4), max_distance: 4, image_treshold: 127 };
    let out = distance_field(&img, &options);
    let expected: Vec<u8> = vec![
        82, 95, 95, 82,
        95, 159, 159, 95,
        95, 159, 159, 95,
        82, 95, 95, 82,
    ];
    assert_eq!(out, expected);
    // every output pixel aligned with a filled-square cell exceeds 128
    for (x, y) in [(1, 1), (2, 1), (1, 2), (2, 2)] {
        assert!(out[y * 4 + x] > 128);
    }
    // the grid corners, farthest from the filled square, stay low
    for (x, y) in [(0, 0), (3, 0), (0, 3), (3, 3)] {
        assert!(out[y * 4 + x] < 128);
    }
}

#[test]
fn boundary_sign_bands() {
    let img = square_image();
    let options = Options { size: (4, 4), max_distance: 4, image_treshold: 127 };
    let out = distance_field(&img, &options);
    for y in 0..4usize {
        for x in 0..4usize {
            let inside = img.get_pixel(x, y);
            if inside {
                assert!(out[y * 4 + x] >= 128);
            } else {
                assert!(out[y * 4 + x] < 128);
            }
        }
    }
}

#[test]
fn degenerate_output_width() {
    let img = square_image();
    let options = Options { size: (0, 4), max_distance: 4, image_treshold: 127 };
    assert_eq!(distance_field(&img, &options).len(), 0);
}

#[test]
fn degenerate_output_height() {
    let img = square_image();
    let options = Options { size: (4, 0), max_distance: 4, image_treshold: 127 };
    assert_eq!(distance_field(&img, &options).len(), 0);
}

#[test]
fn saturation_all_empty() {
    let luma: Vec<u8> = vec![0; 9];
    let img = TresholdImage::from_luma(&luma, 3, 3, 127);
    let options = Options { size: (3, 3), max_distance: 2, image_treshold: 127 };
    let out = distance_field(&img, &options);
    assert_eq!(out, vec![0; 9]);
}

#[test]
fn saturation_all_filled() {
    let luma: Vec<u8> = vec![255; 9];
    let img = TresholdImage::from_luma(&luma, 3, 3, 127);
    let options = Options { size: (3, 3), max_distance: 2, image_treshold: 127 };
    let out = distance_field(&img, &options);
    assert_eq!(out, vec![255; 9]);
}

#[test]
fn monotone_along_line() {
    // a single filled pixel at the left end of a 8x1 strip: moving right,
    // outside pixels get deeper outside and their bytes never increase
    let mut luma: Vec<u8> = vec![0; 8];
    luma[0] = 255;
    let img = TresholdImage::from_luma(&luma, 8, 1, 127);
    let options = Options { size: (8, 1), max_distance: 8, image_treshold: 127 };
    let out = distance_field(&img, &options);
    assert_eq!(out, vec![143, 111, 95, 79, 63, 47, 31, 15]);
    for x in 2..8usize {
        assert!(out[x] <= out[x - 1]);
    }
}

#[test]
fn identity_projection() {
    // output size equal to the source size: pixel (x, y) samples with
    // source pixel (x, y) as its centre
    let luma: Vec<u8> = vec![255, 0];
    let img = TresholdImage::from_luma(&luma, 2, 1, 127);
    let options = Options { size: (2, 1), max_distance: 1, image_treshold: 127 };
    let out = distance_field(&img, &options);
    assert_eq!(out, vec![255, 0]);
}

#[test]
fn downsample_by_two() {
    // centres project to (0, 0), (2, 0), (0, 2), (2, 2) of the source
    let img = square_image();
    let options = Options { size: (2, 2), max_distance: 4, image_treshold: 127 };
    let out = distance_field(&img, &options);
    assert_eq!(out, vec![82, 95, 95, 159]);
}

#[test]
fn per_pixel_matches_grid() {
    let img = square_image();
    let options = Options { size: (4, 4), max_distance: 4, image_treshold: 127 };
    let out = distance_field(&img, &options);
    for y in 0..4usize {
        for x in 0..4usize {
            assert_eq!(out[y * 4 + x], get_nearest_pixel_distance(&img, x, y, &options));
        }
    }
}

#[test]
fn deterministic_output() {
    let img = square_image();
    let options = Options { size: (5, 7), max_distance: 3, image_treshold: 127 };
    let first = distance_field(&img, &options);
    let second = distance_field(&img, &options);
    assert_eq!(first, second);
    let rebuilt = square_image();
    let options_again = Options { size: (5, 7), max_distance: 3, image_treshold: 127 };
    assert_eq!(first, distance_field(&rebuilt, &options_again));
}

#[test]
fn ring_order_breaks_ties() {
    // two state flips in ring 2 of the centre (3, 3): offset (2, 0) at
    // squared distance 4 comes before offset (1, 1) at squared distance 2,
    // so the search reports the farther pixel — the documented
    // approximation of the ring traversal
    let mut luma: Vec<u8> = vec![0; 49];
    luma[3 * 7 + 5] = 255;
    luma[4 * 7 + 4] = 255;
    let img = TresholdImage::from_luma(&luma, 7, 7, 127);
    let options = Options { size: (7, 7), max_distance: 4, image_treshold: 127 };
    let out = distance_field(&img, &options);
    assert_eq!(out[3 * 7 + 3], 63);
}
