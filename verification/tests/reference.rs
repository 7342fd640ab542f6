//! Cross-checks the library against an independent sampler built on
//! spiral's `ManhattanIterator`, the diamond-ring iterator the traversal
//! order is modelled on: `new(cx, cy, m + 1)` yields the centre and then
//! rings 1 through m in the same fixed order.

use distance_field::distance_field;
use distance_field::Options;
use distance_field::TresholdImage;
use spiral::ManhattanIterator;

fn exact_sqrt_floor(t: u128) -> u128 {
    let mut s = (t as f64).sqrt().floor() as u128;
    while (s + 1) * (s + 1) <= t {
        s += 1;
    }
    while s * s > t {
        s -= 1;
    }
    s
}

fn reference_byte(luma: &[u8], w: usize, h: usize, ox: usize, oy: usize, opts: &Options) -> u8 {
    let filled = |x: i64, y: i64| luma[y as usize * w + x as usize] > opts.image_treshold;
    let m = opts.max_distance as i64;
    let cx = (ox * w / opts.size.0) as i64;
    let cy = (oy * h / opts.size.1) as i64;
    let inside = filled(cx, cy);
    let d2 = ManhattanIterator::new(cx, cy, m + 1)
        .filter(|&(x, y)| 0 <= x && x < w as i64 && 0 <= y && y < h as i64)
        .find(|&(x, y)| filled(x, y) != inside)
        .map(|(x, y)| ((x - cx) * (x - cx) + (y - cy) * (y - cy)) as u128)
        .unwrap_or((m * m) as u128);
    let mu = opts.max_distance as u128;
    let t = 65025 * d2;
    let s = exact_sqrt_floor(t);
    let byte = if inside {
        (255 * mu + s) / (2 * mu)
    } else {
        let sc = if s * s == t { s } else { s + 1 };
        (255 * mu - sc) / (2 * mu)
    };
    byte as u8
}

fn check_against_reference(luma: &[u8], w: usize, h: usize, opts: &Options) {
    let img = TresholdImage::from_luma(&luma.to_vec(), w, h, opts.image_treshold);
    let out = distance_field(&img, opts);
    assert_eq!(out.len(), opts.size.0 * opts.size.1);
    for oy in 0..opts.size.1 {
        for ox in 0..opts.size.0 {
            assert_eq!(
                out[oy * opts.size.0 + ox],
                reference_byte(luma, w, h, ox, oy, opts),
                "output pixel ({}, {})",
                ox,
                oy
            );
        }
    }
}

#[test]
fn matches_reference_on_square() {
    let mut luma: Vec<u8> = vec![0; 16];
    for (x, y) in [(1, 1), (2, 1), (1, 2), (2, 2)] {
        luma[y * 4 + x] = 255;
    }
    let opts = Options { size: (4, 4), max_distance: 4, image_treshold: 127 };
    check_against_reference(&luma, 4, 4, &opts);
}

#[test]
fn matches_reference_on_scattered_pattern() {
    let luma: Vec<u8> = vec![
        10, 200, 10, 10, 90,
        10, 10, 130, 10, 10,
        255, 10, 10, 10, 10,
        10, 10, 10, 180, 10,
        10, 120, 10, 10, 10,
    ];
    let opts = Options { size: (5, 5), max_distance: 3, image_treshold: 100 };
    check_against_reference(&luma, 5, 5, &opts);
}

#[test]
fn matches_reference_when_resampling() {
    let luma: Vec<u8> = vec![
        10, 200, 10, 10, 90,
        10, 10, 130, 10, 10,
        255, 10, 10, 10, 10,
        10, 10, 10, 180, 10,
        10, 120, 10, 10, 10,
    ];
    let up = Options { size: (9, 6), max_distance: 5, image_treshold: 100 };
    check_against_reference(&luma, 5, 5, &up);
    let down = Options { size: (3, 2), max_distance: 5, image_treshold: 100 };
    check_against_reference(&luma, 5, 5, &down);
}
