//! Normalization of finished fields: exact min-max scaling, clamped
//! symmetric scaling with the boundary level at the exact midpoint, the
//! byte and 16-bit encodings, and the empty-field failure conditions.

use signed_distance_field::binary_image::of_byte_slice;
use signed_distance_field::distance_field::{
    DistanceStorage, F16DistanceStorage, F32DistanceStorage, SignedDistanceField, NORM_HALF,
    NORM_ONE,
};
use signed_distance_field::fixed::FP_ONE;

fn circle_buffer(width: usize, height: usize, cx: isize, cy: isize, r: isize) -> Vec<u8> {
    let mut buffer = vec![0u8; width * height];
    for y in 0..height {
        for x in 0..width {
            let dx = x as isize - cx;
            let dy = y as isize - cy;
            if dx * dx + dy * dy < r * r {
                buffer[y * width + x] = 255;
            }
        }
    }
    buffer
}

#[test]
fn normalize_scales_span_exactly() {
    let (w, h) = (64usize, 48usize);
    let buffer = circle_buffer(w, h, 32, 24, 16);
    let image = of_byte_slice(&buffer, w as u16, h as u16);
    let field = SignedDistanceField::<F32DistanceStorage>::compute(&image);

    // gather the raw distances before normalization consumes the field
    let mut raw = Vec::new();
    for y in 0..h as u16 {
        for x in 0..w as u16 {
            raw.push(field.get_distance(x, y));
        }
    }
    let min = *raw.iter().min().unwrap();
    let max = *raw.iter().max().unwrap();

    let normalized = field.normalize_distances().expect("the circle has a boundary");
    assert_eq!(normalized.width, w as u16);
    assert_eq!(normalized.height, h as u16);
    assert_eq!(normalized.former_min_distance, min);
    assert_eq!(normalized.former_max_distance, max);
    assert_eq!(normalized.zero_distance, (0 - min) * NORM_ONE / (max - min));
    assert!(min < 0 && max > 0);

    let mut seen_zero = false;
    let mut seen_one = false;
    for (k, d) in raw.iter().enumerate() {
        let expected = (d - min) * NORM_ONE / (max - min);
        let got = normalized.distances.get(k);
        assert_eq!(got, expected);
        assert!(0 <= got && got <= NORM_ONE);
        seen_zero |= got == 0;
        seen_one |= got == NORM_ONE;
    }
    assert!(seen_zero && seen_one, "the extrema map to the ends of the range");
}

#[test]
fn normalize_clamped_midpoint_and_ends() {
    let (w, h) = (64usize, 64usize);
    let buffer = circle_buffer(w, h, 32, 32, 16);
    let image = of_byte_slice(&buffer, w as u16, h as u16);
    let field = SignedDistanceField::<F32DistanceStorage>::compute(&image);

    let mut raw = Vec::new();
    for y in 0..h as u16 {
        for x in 0..w as u16 {
            raw.push(field.get_distance(x, y));
        }
    }

    let max = 10 * FP_ONE;
    let normalized =
        SignedDistanceField::normalize_clamped_distances(field, max).expect("has a boundary");
    assert_eq!(normalized.zero_distance, NORM_HALF);
    assert_eq!(normalized.former_min_distance, *raw.iter().min().unwrap());
    assert_eq!(normalized.former_max_distance, *raw.iter().max().unwrap());

    let mut seen_low = false;
    let mut seen_high = false;
    let mut seen_mid = false;
    for (k, d) in raw.iter().enumerate() {
        let got = normalized.distances.get(k);
        assert!(0 <= got && got <= NORM_ONE);
        if *d == 0 {
            assert_eq!(got, NORM_HALF);
            seen_mid = true;
        }
        if *d >= max {
            assert_eq!(got, NORM_ONE);
            seen_high = true;
        }
        if *d <= -max {
            assert_eq!(got, 0);
            seen_low = true;
        }
    }
    assert!(seen_low && seen_high && seen_mid);
}

#[test]
fn normalize_clamped_compact_storage_keeps_midpoint() {
    let (w, h) = (32usize, 32usize);
    let buffer = circle_buffer(w, h, 16, 16, 8);
    let image = of_byte_slice(&buffer, w as u16, h as u16);
    let field = SignedDistanceField::<F16DistanceStorage>::compute(&image);

    let mut zeros = Vec::new();
    for y in 0..h as u16 {
        for x in 0..w as u16 {
            if field.get_distance(x, y) == 0 {
                zeros.push((y as usize) * w + x as usize);
            }
        }
    }
    assert!(!zeros.is_empty());

    let normalized = field.normalize_clamped_distances(4 * FP_ONE).expect("has a boundary");
    for k in zeros {
        assert_eq!(normalized.distances.get(k), NORM_HALF);
    }
}

#[test]
fn no_shape_normalization_fails() {
    let (w, h) = (16usize, 12usize);
    for byte in [0u8, 255u8] {
        let buffer = vec![byte; w * h];
        let image = of_byte_slice(&buffer, w as u16, h as u16);
        let field = SignedDistanceField::<F32DistanceStorage>::compute(&image);
        assert!(field.normalize_distances().is_none());

        let field = SignedDistanceField::<F32DistanceStorage>::compute(&image);
        assert!(field.normalize_clamped_distances(10 * FP_ONE).is_none());
    }
}

#[test]
fn all_boundary_field_has_no_span() {
    // both pixels are boundary pixels, so every distance is zero: the
    // clamped normalization puts everything at the midpoint, while
    // min-max normalization has no span to scale and fails
    let buffer = vec![0u8, 255];
    let image = of_byte_slice(&buffer, 2, 1);

    let field = SignedDistanceField::<F32DistanceStorage>::compute(&image);
    assert!(field.normalize_distances().is_none());

    let field = SignedDistanceField::<F32DistanceStorage>::compute(&image);
    let normalized = field.normalize_clamped_distances(10 * FP_ONE).unwrap();
    assert_eq!(normalized.distances.get(0), NORM_HALF);
    assert_eq!(normalized.distances.get(1), NORM_HALF);
    assert_eq!(normalized.to_u8(), vec![127u8, 127]);
    assert_eq!(normalized.to_u16(), vec![32767u16, 32767]);
}

#[test]
fn bytes_use_full_range() {
    let (w, h) = (64usize, 64usize);
    let buffer = circle_buffer(w, h, 32, 32, 16);
    let image = of_byte_slice(&buffer, w as u16, h as u16);
    let field = SignedDistanceField::<F32DistanceStorage>::compute(&image);

    let mut raw = Vec::new();
    for y in 0..h as u16 {
        for x in 0..w as u16 {
            raw.push(field.get_distance(x, y));
        }
    }
    let max = 10 * FP_ONE;
    let normalized = field.normalize_clamped_distances(max).unwrap();
    let bytes = normalized.to_u8();
    let words = normalized.to_u16();
    assert_eq!(bytes.len(), w * h);
    assert_eq!(words.len(), w * h);

    for (k, d) in raw.iter().enumerate() {
        if *d == 0 {
            // the midpoint scales to the middle of each range
            assert_eq!(bytes[k], 127);
            assert_eq!(words[k], 32767);
        }
        if *d >= max {
            assert_eq!(bytes[k], 255);
            assert_eq!(words[k], 65535);
        }
        if *d <= -max {
            assert_eq!(bytes[k], 0);
            assert_eq!(words[k], 0);
        }
    }
}

#[test]
fn minmax_bytes_hit_both_ends() {
    let (w, h) = (48usize, 48usize);
    let buffer = circle_buffer(w, h, 24, 24, 12);
    let image = of_byte_slice(&buffer, w as u16, h as u16);
    let field = SignedDistanceField::<F32DistanceStorage>::compute(&image);
    let normalized = field.normalize_distances().unwrap();
    let bytes = normalized.to_u8();
    assert!(bytes.iter().any(|b| *b == 0));
    assert!(bytes.iter().any(|b| *b == 255));
}
