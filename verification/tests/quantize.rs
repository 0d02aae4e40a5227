//! The scalar quantizer, with components given as the bits of floats.

use sastran::{Error, Result, ScalarQuantizer};

fn bits(v: &[f32]) -> Vec<u32> {
    v.iter().map(|x| x.to_bits()).collect()
}

fn train(sample: &[Vec<f32>]) -> Result<ScalarQuantizer> {
    let sample: Vec<Vec<u32>> = sample.iter().map(|v| bits(v)).collect();
    ScalarQuantizer::train(&sample)
}

/// The byte of `x` between `min` and `max`.
fn step(min: u32, max: u32, x: u32) -> u8 {
    let (min, max, x) = (f32::from_bits(min), f32::from_bits(max), f32::from_bits(x));
    let range = max - min;
    if range == 0.0 {
        0
    } else {
        ((x - min) / range * 255.0).round().clamp(0.0, 255.0) as u8
    }
}

/// The component that byte `b` stands for between `min` and `max`.
fn value(min: u32, max: u32, b: u8) -> u32 {
    let (min, max) = (f32::from_bits(min), f32::from_bits(max));
    let range = max - min;
    let x = if range == 0.0 { min } else { min + (b as f32 / 255.0) * range };
    x.to_bits()
}

fn quantize(q: &ScalarQuantizer, v: &[f32]) -> Result<Vec<u8>> {
    q.quantize(&step, &bits(v))
}

fn round_trip(q: &ScalarQuantizer, v: &[f32]) -> Result<Vec<f32>> {
    let r = q.round_trip(&step, &value, &bits(v))?;
    Ok(r.iter().map(|x| f32::from_bits(*x)).collect())
}

#[test]
fn train_rejects_empty_sample() {
    let err = train(&[]).unwrap_err();
    assert!(matches!(err, Error::InvalidArgument(_)));
}

#[test]
fn train_rejects_zero_dim() {
    let err = train(&[vec![]]).unwrap_err();
    assert!(matches!(err, Error::InvalidArgument(_)));
}

#[test]
fn train_rejects_dim_mismatch() {
    let sample = vec![vec![1.0, 2.0], vec![1.0, 2.0, 3.0]];
    let err = train(&sample).unwrap_err();
    assert!(matches!(err, Error::InvalidArgument(_)));
}

#[test]
fn train_rejects_non_finite() {
    let sample = vec![vec![1.0, f32::NAN]];
    let err = train(&sample).unwrap_err();
    assert!(matches!(err, Error::InvalidArgument(_)));
}

#[test]
fn round_trip_is_close_for_in_range_values() {
    // Train on a spread of values, then check round-trip error is
    // bounded by half a quantization step.
    let sample = vec![
        vec![0.0, -10.0],
        vec![1.0, 10.0],
        vec![0.5, 0.0],
    ];
    let q = train(&sample).unwrap();

    let test = vec![0.3, 4.2];
    let recovered = round_trip(&q, &test).unwrap();

    // Dimension 0: range = 1.0, step = 1/255, max error = 1/510 ≈ 0.00196.
    assert!((recovered[0] - 0.3).abs() <= 1.0 / 510.0 + 1e-6);
    // Dimension 1: range = 20.0, step = 20/255, max error = 20/510 ≈ 0.0392.
    assert!((recovered[1] - 4.2).abs() <= 20.0 / 510.0 + 1e-6);
}

#[test]
fn endpoints_round_trip_nearly_exactly() {
    let sample = vec![vec![2.0], vec![8.0]];
    let q = train(&sample).unwrap();
    // min endpoint → byte 0 → back to min.
    let lo = round_trip(&q, &[2.0]).unwrap();
    assert!((lo[0] - 2.0).abs() < 1e-4);
    // max endpoint → byte 255 → back to max.
    let hi = round_trip(&q, &[8.0]).unwrap();
    assert!((hi[0] - 8.0).abs() < 1e-4);
}

#[test]
fn out_of_range_values_saturate() {
    let sample = vec![vec![0.0], vec![1.0]];
    let q = train(&sample).unwrap();

    // Below min saturates to byte 0.
    assert_eq!(quantize(&q, &[-5.0]).unwrap(), vec![0u8]);
    // Above max saturates to byte 255.
    assert_eq!(quantize(&q, &[5.0]).unwrap(), vec![255u8]);
}

#[test]
fn degenerate_dimension_is_handled() {
    // A dimension where every training value is identical (range 0).
    let sample = vec![vec![3.0, 1.0], vec![3.0, 9.0]];
    let q = train(&sample).unwrap();
    // Dimension 0 is constant at 3.0.
    let recovered = round_trip(&q, &[3.0, 5.0]).unwrap();
    assert!((recovered[0] - 3.0).abs() < 1e-6, "constant dim should recover exactly");
    // Even an out-of-training value on the constant dim recovers to
    // the constant (no NaN, no panic).
    let recovered2 = round_trip(&q, &[999.0, 5.0]).unwrap();
    assert!((recovered2[0] - 3.0).abs() < 1e-6);
    assert!(recovered2[1].is_finite());
}

#[test]
fn quantize_rejects_dim_mismatch() {
    let q = train(&[vec![0.0, 1.0]]).unwrap();
    let err = quantize(&q, &[1.0]).unwrap_err();
    assert!(matches!(err, Error::InvalidArgument(_)));
}

#[test]
fn dequantize_rejects_dim_mismatch() {
    let q = train(&[vec![0.0, 1.0]]).unwrap();
    let err = q.dequantize(&value, &[128u8]).unwrap_err();
    assert!(matches!(err, Error::InvalidArgument(_)));
}

#[test]
fn quantized_output_is_one_byte_per_dim() {
    let q = train(&[vec![0.0; 128], vec![1.0; 128]]).unwrap();
    let v = vec![0.5f32; 128];
    let bytes = quantize(&q, &v).unwrap();
    assert_eq!(bytes.len(), 128, "one byte per dimension");
    // vs. 128 * 4 = 512 bytes at full precision: 4x compression.
}

#[test]
fn steps_are_exact_at_the_grid() {
    // 256 values, one apart: each is its own byte.
    let q = train(&[vec![-100.0], vec![155.0]]).unwrap();
    assert_eq!(q.dim(), 1);
    for b in 0..=255u8 {
        let x = -100.0 + b as f32;
        assert_eq!(quantize(&q, &[x]).unwrap(), vec![b]);
        assert_eq!(round_trip(&q, &[x]).unwrap(), vec![x]);
    }
}

#[test]
fn negative_extremes_are_found() {
    // The smallest and the largest of each dimension, whatever their signs.
    let q = train(&[vec![-1.0, 5.0], vec![-3.0, -2.0], vec![-2.0, 7.0]]).unwrap();
    assert_eq!(quantize(&q, &[-3.0, -2.0]).unwrap(), vec![0, 0]);
    assert_eq!(quantize(&q, &[-1.0, 7.0]).unwrap(), vec![255, 255]);
}
