//! Precision conversion behaviour, NaN handling included, held against the
//! same computations done in host floating point.

use rust_annie::gpu_convert::{quantize_i8, convert_data, Precision};
use half::f16;

#[test]
fn test_nan_and_infinite_handling() {
    let data = vec![
        1.0f32,
        f32::NAN,
        f32::INFINITY,
        f32::NEG_INFINITY,
        2.0f32,
    ];
    let converted: Vec<i8> = data.iter().map(|x| quantize_i8(x.to_bits())).collect();
    assert_eq!(converted[0], 127); // 1.0 * 127
    assert_eq!(converted[1], 0); // NaN -> 0
    assert_eq!(converted[2], 0); // Infinity -> 0
    assert_eq!(converted[3], 0); // -Infinity -> 0
    assert_eq!(converted[4], 127); // 2.0 * 127 (clamped to 127)
}

#[test]
fn test_nan_infinity_handling() {
    let problematic_values = vec![
        1.0f32,
        f32::NAN,
        f32::INFINITY,
        f32::NEG_INFINITY,
        2.5f32,
    ];
    let safe_i8: Vec<i8> = problematic_values
        .iter()
        .map(|x| quantize_i8(x.to_bits()))
        .collect();
    assert_eq!(safe_i8[0], 127); // 1.0 * 127
    assert_eq!(safe_i8[1], 0); // NaN -> 0
    assert_eq!(safe_i8[2], 0); // Infinity -> 0
    assert_eq!(safe_i8[3], 0); // -Infinity -> 0
    assert_eq!(safe_i8[4], 127); // 2.5 * 127 = 317.5, clamped to 127
}

#[test]
fn quantize_matches_host_arithmetic() {
    // the library's integer quantization against the same formula in f32
    let samples = [
        0.0f32, -0.0, 0.5, -0.5, 0.25, 1.0, -1.0, 0.99, -0.99, 1.00787, -1.00787, 0.0079,
        -0.0079, 0.003937, 1.5, -1.5, 2.5, -2.5, 100.0, -100.0, 1e-20, -1e-20, 1e20, -1e20,
        0.7071, -0.33333,
    ];
    for &x in samples.iter() {
        let host = if !x.is_finite() {
            0i8
        } else {
            (x * 127.0).clamp(-128.0, 127.0) as i8
        };
        assert_eq!(quantize_i8(x.to_bits()), host, "quantize differs at {x}");
    }
}

#[test]
fn convert_data_sizes_and_emptiness() {
    let q: Vec<u32> = vec![1.0f32.to_bits(), 2.0f32.to_bits()];
    let c: Vec<u32> = vec![3.0f32.to_bits(), 4.0f32.to_bits(), 5.0f32.to_bits()];
    let (qb, cb) = convert_data(&q, &c, Precision::Fp32).unwrap();
    assert_eq!(qb.len(), 8);
    assert_eq!(cb.len(), 12);
    let (qb, cb) = convert_data(&q, &c, Precision::Fp16).unwrap();
    assert_eq!(qb.len(), 4);
    assert_eq!(cb.len(), 6);
    let (qb, cb) = convert_data(&q, &c, Precision::Int8).unwrap();
    assert_eq!(qb.len(), 2);
    assert_eq!(cb.len(), 3);
    let empty: Vec<u32> = vec![];
    assert!(convert_data(&empty, &c, Precision::Fp32).is_err());
    assert!(convert_data(&q, &empty, Precision::Fp32).is_err());
}

#[test]
fn fp32_bytes_are_little_endian() {
    let q: Vec<u32> = vec![1.0f32.to_bits()];
    let c: Vec<u32> = vec![2.0f32.to_bits()];
    let (qb, cb) = convert_data(&q, &c, Precision::Fp32).unwrap();
    assert_eq!(qb, 1.0f32.to_le_bytes().to_vec());
    assert_eq!(cb, 2.0f32.to_le_bytes().to_vec());
}

#[test]
fn f16_narrowing_matches_half() {
    // finite values narrow as the half crate does; non-finite narrow to zero
    let samples = [0.5f32, 1.0, 2.0, 3.14, -1.5, 65504.0, 1e-8, 123.456, -0.0078125];
    for &x in samples.iter() {
        let (qb, _) = convert_data(
            &vec![x.to_bits()],
            &vec![0u32],
            Precision::Fp16,
        )
        .unwrap();
        let got = u16::from_le_bytes([qb[0], qb[1]]);
        let want = f16::from_f32(x).to_bits();
        assert_eq!(got, want, "f16 narrowing differs at {x}");
    }
    let (qb, _) = convert_data(&vec![f32::NAN.to_bits()], &vec![0u32], Precision::Fp16).unwrap();
    assert_eq!(u16::from_le_bytes([qb[0], qb[1]]), 0);
}
