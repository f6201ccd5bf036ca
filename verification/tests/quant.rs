use velo_core::gguf::GgmlType;
use velo_core::quant::{
    bf16_to_f32, copy_f32_row, dequant_bf16_row, dequant_f16_row, f16_to_f32, matrix_row,
    row_format, unpack_q4_0_row, unpack_q4k_scales, RowFormat,
};
use velo_core::scalar::F32;

fn value(v: F32) -> f32 {
    f32::from_bits(v.to_bits())
}

fn zeros(n: usize) -> Vec<F32> {
    vec![F32::from_bits(0); n]
}

#[test]
fn f16_zero_converts_to_zero() {
    assert_eq!(value(f16_to_f32(0)), 0.0);
}

#[test]
fn f16_one_converts_correctly() {
    // 0x3C00 is 1.0 in f16
    assert!((value(f16_to_f32(0x3C00)) - 1.0).abs() < 1e-6);
}

#[test]
fn f16_minus_one_converts_correctly() {
    // 0xBC00 is -1.0 in f16
    assert!((value(f16_to_f32(0xBC00)) - (-1.0)).abs() < 1e-6);
}

#[test]
fn bf16_converts_correctly() {
    // 0x3F80 is 1.0 in bf16
    assert!((value(bf16_to_f32(0x3F80)) - 1.0).abs() < 1e-6);
}

fn make_q4_0_block(delta_f16: u16, nibbles: &[u8; 16]) -> Vec<u8> {
    let mut block = Vec::with_capacity(18);
    block.extend_from_slice(&delta_f16.to_le_bytes());
    block.extend_from_slice(nibbles);
    block
}

fn scaled(data: &[u8], n: usize) -> Vec<f32> {
    let mut out = Vec::new();
    for block in unpack_q4_0_row(data, n) {
        for level in &block.levels {
            out.push(value(block.delta) * *level as f32);
        }
    }
    out
}

#[test]
fn dequant_q4_0_all_zeros_produces_zeros() {
    // delta=1.0 (0x3C00), nibbles all 0x88 (value 8 → 8-8=0)
    let block = make_q4_0_block(0x3C00, &[0x88; 16]);
    let out = scaled(&block, 32);
    assert_eq!(out.len(), 32);
    for v in &out {
        assert!(v.abs() < 1e-6, "expected 0, got {v}");
    }
}

#[test]
fn dequant_q4_0_scale_applies() {
    // delta = 2.0 (f16 = 0x4000), nibbles all 0x99 (lo=9→1, hi=9→1)
    let block = make_q4_0_block(0x4000, &[0x99; 16]);
    let out = scaled(&block, 32);
    // Each element: delta * 1 = 2.0
    for v in &out {
        assert!((v - 2.0).abs() < 1e-4, "expected 2.0, got {v}");
    }
}

#[test]
fn dequant_f32_row_roundtrips() {
    let values = [1.0f32, -2.5, 3.14, 0.0];
    let bytes: Vec<u8> = values.iter().flat_map(|v| v.to_le_bytes()).collect();
    let mut out = zeros(4);
    copy_f32_row(&bytes, &mut out);
    for (a, b) in values.iter().zip(out.iter()) {
        assert!((a - value(*b)).abs() < 1e-7);
    }
}

#[test]
fn dequant_matrix_f32_identity() {
    let data: Vec<u8> = [1.0f32, 2.0, 3.0, 4.0].iter().flat_map(|v| v.to_le_bytes()).collect();
    let mut out: Vec<f32> = Vec::new();
    for r in 0..2 {
        let mut row = zeros(2);
        copy_f32_row(matrix_row(GgmlType::F32, &data, r, 2), &mut row);
        out.extend(row.iter().map(|v| value(*v)));
    }
    assert_eq!(out, vec![1.0, 2.0, 3.0, 4.0]);
}

#[test]
fn half_precision_covers_its_special_values() {
    assert_eq!(value(f16_to_f32(0x7C00)), f32::INFINITY);
    assert_eq!(value(f16_to_f32(0xFC00)), f32::NEG_INFINITY);
    assert!(value(f16_to_f32(0x7E00)).is_nan());
    assert_eq!(value(f16_to_f32(0x0001)), 2.0f32.powi(-24));
    assert_eq!(value(f16_to_f32(0x7BFF)), 65504.0);
}

#[test]
fn short_rows_are_widened_value_by_value() {
    let mut out = zeros(2);
    dequant_f16_row(&[0x00, 0x3C, 0x00, 0xC0], &mut out);
    assert_eq!(value(out[0]), 1.0);
    assert_eq!(value(out[1]), -2.0);
    dequant_bf16_row(&[0x80, 0x3F, 0x00, 0xC0], &mut out);
    assert_eq!(value(out[0]), 1.0);
    assert_eq!(value(out[1]), -2.0);
}

#[test]
fn scales_of_a_super_block_have_six_bits() {
    let data = [0xFFu8; 12];
    let pairs = unpack_q4k_scales(&data, 0);
    assert_eq!(pairs.len(), 8);
    assert!(pairs.iter().all(|(s, m)| *s < 64 && *m < 64));
}

#[test]
fn formats_that_are_not_read_give_zeros() {
    assert!(matches!(row_format(GgmlType::F32), RowFormat::F32));
    assert!(matches!(row_format(GgmlType::Q4_0), RowFormat::Q4));
    assert!(matches!(row_format(GgmlType::Q8_0), RowFormat::Zeros));
}
