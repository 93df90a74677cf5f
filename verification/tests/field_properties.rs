//! Element-wise properties of computed fields: sign against the source
//! classification, exact consistency between distances and recorded
//! targets, zero distances on boundary pixels, storage precision
//! agreement, and the no-shape degeneracy.

use signed_distance_field::binary_image::{of_byte_slice, of_byte_slice_with_threshold, BinaryImage};
use signed_distance_field::distance_field::{
    F16DistanceStorage, F32DistanceStorage, SignedDistanceField,
};
use signed_distance_field::fixed::DISTANCE_INFINITY;
use signed_distance_field::{compute_f16_distance_field, compute_f32_distance_field};

fn circle_buffer(width: usize, height: usize, cx: isize, cy: isize, r: isize) -> Vec<u8> {
    let mut buffer = vec![0u8; width * height];
    for y in 0..height {
        for x in 0..width {
            let dx = x as isize - cx;
            let dy = y as isize - cy;
            if dx * dx + dy * dy < r * r {
                buffer[y * width + x] = 255;
            }
        }
    }
    buffer
}

fn is_edge_pixel(buffer: &[u8], width: usize, height: usize, x: usize, y: usize) -> bool {
    let inside = |x: usize, y: usize| buffer[y * width + x] > 127;
    let me = inside(x, y);
    (x > 0 && inside(x - 1, y) != me)
        || (x + 1 < width && inside(x + 1, y) != me)
        || (y > 0 && inside(x, y - 1) != me)
        || (y + 1 < height && inside(x, y + 1) != me)
}

#[test]
fn sign_matches_classification_exactly() {
    let (w, h) = (48usize, 40usize);
    let buffer = circle_buffer(w, h, 20, 18, 9);
    let image = of_byte_slice(&buffer, w as u16, h as u16);
    let field = compute_f32_distance_field(&image);

    let mut agree = 0usize;
    for y in 0..h as u16 {
        for x in 0..w as u16 {
            let d = field.get_distance(x, y);
            let inside = image.is_inside(x, y);
            // the sign never contradicts the classification
            if d < 0 {
                assert!(inside);
            }
            if inside {
                assert!(d <= 0);
            } else {
                assert!(d >= 0);
            }
            if (d < 0) == inside {
                agree += 1;
            }
        }
    }
    // strict-negativity reconstruction only misses boundary pixels
    let fraction = agree as f64 / (w * h) as f64;
    assert!(fraction >= 0.95, "sign agreement too low: {}", fraction);
}

#[test]
fn distances_consistent_with_targets() {
    let (w, h) = (48usize, 40usize);
    let buffer = circle_buffer(w, h, 20, 18, 9);
    let image = of_byte_slice(&buffer, w as u16, h as u16);
    let field = SignedDistanceField::<F32DistanceStorage>::compute(&image);

    for y in 0..h as u16 {
        for x in 0..w as u16 {
            let d = field.get_distance(x, y);
            assert!(d.abs() != DISTANCE_INFINITY, "the circle must reach every pixel");
            let (tx, ty) = field.get_distance_target(x, y);
            // the recorded target is a boundary pixel
            assert!(is_edge_pixel(&buffer, w, h, tx as usize, ty as usize));
            // the magnitude is exactly the floor of 256 * euclidean(pixel, target)
            let dx = x as i64 - tx as i64;
            let dy = y as i64 - ty as i64;
            let scaled_sq = (dx * dx + dy * dy) * 65536;
            let m = d.abs();
            assert!(m * m <= scaled_sq && scaled_sq < (m + 1) * (m + 1));
            // the same, as a float tolerance
            let euclid = ((dx * dx + dy * dy) as f64).sqrt();
            assert!((m as f64 / 256.0 - euclid).abs() < 1.0 / 256.0 + 1e-9);
        }
    }
}

#[test]
fn boundary_pixels_are_zero() {
    let (w, h) = (48usize, 40usize);
    let buffer = circle_buffer(w, h, 20, 18, 9);
    let image = of_byte_slice(&buffer, w as u16, h as u16);
    let field_16 = SignedDistanceField::<F16DistanceStorage>::compute(&image);
    let field_32 = SignedDistanceField::<F32DistanceStorage>::compute(&image);

    let mut edges = 0usize;
    for y in 0..h {
        for x in 0..w {
            if is_edge_pixel(&buffer, w, h, x, y) {
                edges += 1;
                assert_eq!(field_16.get_distance(x as u16, y as u16), 0);
                assert_eq!(field_32.get_distance(x as u16, y as u16), 0);
                assert_eq!(field_32.get_distance_target(x as u16, y as u16), (x as u16, y as u16));
            }
        }
    }
    assert!(edges > 0);
}

#[test]
fn storage_precision_agreement() {
    let (w, h) = (64usize, 64usize);
    let buffer = circle_buffer(w, h, 32, 32, 10);
    let image = of_byte_slice(&buffer, w as u16, h as u16);
    let field_16 = compute_f16_distance_field(&image);
    let field_32 = compute_f32_distance_field(&image);

    for y in 0..h as u16 {
        for x in 0..w as u16 {
            let d16 = field_16.get_distance(x, y);
            let d32 = field_32.get_distance(x, y);
            // each write differs by at most half a rounding step, but the
            // sweeps may adopt slightly different targets under the two
            // roundings, so the fields agree within a small relative
            // tolerance (and exactly in kind: reduced precision keeps
            // multiples of its grid step)
            let tolerance = 16.0 + 0.01 * (d32.abs() as f64);
            assert!(((d16 - d32).abs() as f64) <= tolerance, "{} vs {}", d16, d32);
            assert_eq!(d16 % 32, 0);
        }
    }
}

#[test]
fn no_shape_all_infinite() {
    let (w, h) = (16usize, 12usize);
    let dark = vec![0u8; w * h];
    let image = of_byte_slice(&dark, w as u16, h as u16);
    let field = compute_f32_distance_field(&image);
    for y in 0..h as u16 {
        for x in 0..w as u16 {
            assert_eq!(field.get_distance(x, y).abs(), DISTANCE_INFINITY);
        }
    }

    let bright = vec![255u8; w * h];
    let image = of_byte_slice(&bright, w as u16, h as u16);
    let field = compute_f32_distance_field(&image);
    for y in 0..h as u16 {
        for x in 0..w as u16 {
            // a uniformly inside image keeps infinite magnitudes, negated
            assert_eq!(field.get_distance(x, y), -DISTANCE_INFINITY);
        }
    }
}

#[test]
fn single_pixel_image_has_no_boundary() {
    let buffer = vec![255u8; 1];
    let image = of_byte_slice(&buffer, 1, 1);
    let field = compute_f32_distance_field(&image);
    assert_eq!(field.get_distance(0, 0).abs(), DISTANCE_INFINITY);
}

#[test]
fn threshold_classifies_bytes() {
    let buffer = vec![0u8, 200, 201, 255];
    let image = of_byte_slice_with_threshold(&buffer, 4, 1, 200);
    assert!(!image.is_inside(0, 0));
    assert!(!image.is_inside(1, 0));
    assert!(image.is_inside(2, 0));
    assert!(image.is_inside(3, 0));
    assert_eq!(image.width(), 4);
    assert_eq!(image.height(), 1);
}

#[test]
fn two_pixel_field_is_all_boundary() {
    let buffer = vec![0u8, 255];
    let image = of_byte_slice(&buffer, 2, 1);
    let field = compute_f32_distance_field(&image);
    assert_eq!(field.get_distance(0, 0), 0);
    assert_eq!(field.get_distance(1, 0), 0);
    assert_eq!(field.get_distance_target(0, 0), (0, 0));
    assert_eq!(field.get_distance_target(1, 0), (1, 0));
}

#[test]
fn field_accessors_match_layout() {
    let buffer = circle_buffer(7, 5, 3, 2, 2);
    let image = of_byte_slice(&buffer, 7, 5);
    let field = SignedDistanceField::<F32DistanceStorage>::compute(&image);
    assert_eq!(field.width, 7);
    assert_eq!(field.height, 5);
    assert_eq!(field.flatten_index(3, 2), 2 * 7 + 3);
    assert_eq!(signed_distance_field::distance_field::is_valid_index(3, 2, 7, 5), true);
    assert_eq!(signed_distance_field::distance_field::is_valid_index(-1, 2, 7, 5), false);
    assert_eq!(signed_distance_field::distance_field::is_valid_index(7, 2, 7, 5), false);
    assert_eq!(signed_distance_field::distance_field::is_valid_index(3, 5, 7, 5), false);
}

#[test]
fn known_distances_on_a_dot() {
    // a single bright pixel in the middle: its four neighbours differ
    // from it, so pixel and neighbours are all boundary pixels
    let (w, h) = (5usize, 5usize);
    let mut buffer = vec![0u8; w * h];
    buffer[2 * w + 2] = 255;
    let image = of_byte_slice(&buffer, w as u16, h as u16);
    let field = SignedDistanceField::<F32DistanceStorage>::compute(&image);

    assert_eq!(field.get_distance(2, 2), 0);
    assert_eq!(field.get_distance(1, 2), 0);
    assert_eq!(field.get_distance(3, 2), 0);
    assert_eq!(field.get_distance(2, 1), 0);
    assert_eq!(field.get_distance(2, 3), 0);
    // (0, 2) is one pixel left of the boundary pixel (1, 2)
    assert_eq!(field.get_distance(0, 2), 256);
    // (0, 0) is diagonal to a boundary pixel at distance sqrt(5) from
    // (2, 1) or (1, 2): floor(256 * sqrt(5)) = 572
    assert_eq!(field.get_distance(0, 0), 572);
}

#[test]
fn empty_image_field() {
    let buffer: Vec<u8> = Vec::new();
    let image = of_byte_slice(&buffer, 0, 0);
    let field = SignedDistanceField::<F32DistanceStorage>::compute(&image);
    assert_eq!(field.width, 0);
    assert_eq!(field.height, 0);
    assert!(field.normalize_distances().is_none());
}
