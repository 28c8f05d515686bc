use radix::{F32Bits, F64Bits, RadixSortFloat, RadixSortInt};

fn sort_f32(vals: &[f32]) -> Vec<f32> {
    let mut bits: Vec<F32Bits> = vals.iter().map(|v| F32Bits(v.to_bits())).collect();
    bits.radix_sort();
    bits.iter().map(|b| f32::from_bits(b.0)).collect()
}

fn sort_f64(vals: &[f64]) -> Vec<f64> {
    let mut bits: Vec<F64Bits> = vals.iter().map(|v| F64Bits(v.to_bits())).collect();
    bits.radix_sort();
    bits.iter().map(|b| f64::from_bits(b.0)).collect()
}

#[test]
fn test_sort_i32() {
    let mut vals: Vec<i32> = (-512..512).rev().collect();
    let expected: Vec<i32> = (-512..512).collect();
    vals.radix_sort();
    assert_eq!(expected, vals);
}

#[test]
fn test_sort_i64() {
    let mut vals: Vec<i64> = vec![
        i32::max_value() as i64 + 1,
        4,
        3,
        2,
        1,
        -1,
        -2,
        -3,
        -4,
        i32::min_value() as i64 - 1,
    ];
    let expected: Vec<i64> = vec![
        i32::min_value() as i64 - 1,
        -4,
        -3,
        -2,
        -1,
        1,
        2,
        3,
        4,
        i32::max_value() as i64 + 1,
    ];
    vals.radix_sort();
    assert_eq!(expected, vals);
}

#[test]
fn test_sort_u32() {
    let mut vals: Vec<u32> = (0..1024).rev().collect();
    let expected: Vec<u32> = (0..1024).collect();
    vals.radix_sort();
    assert_eq!(expected, vals);
}

#[test]
fn test_sort_u64() {
    let mut vals: Vec<u64> = vec![u32::max_value() as u64 + 1, 4, 3, 2, 1];
    let expected: Vec<u64> = vec![1, 2, 3, 4, u32::max_value() as u64 + 1];
    vals.radix_sort();
    assert_eq!(expected, vals);
}

#[test]
fn test_sort_u128() {
    let mut vals: Vec<u128> = vec![u64::max_value() as u128 + 1, 4, 3, 2, 1];
    let expected: Vec<u128> = vec![1, 2, 3, 4, u64::max_value() as u128 + 1];
    vals.radix_sort();
    assert_eq!(expected, vals);
}

#[test]
fn test_sort_f32() {
    let vals: Vec<f32> = (0..1024).rev().map(|n| n as f32).collect();
    let expected: Vec<f32> = (0..1024).map(|n| n as f32).collect();
    let vals = sort_f32(&vals);
    assert_eq!(expected, vals);
}

#[test]
fn test_sort_f64() {
    let vals: Vec<f64> = vec![
        f32::MAX as f64 + 1f64,
        4f64,
        3f64,
        2f64,
        1f64,
        -1f64,
        -2f64,
        -3f64,
        -4f64,
        f32::MIN as f64 - 1f64,
    ];
    let expected: Vec<f64> = vec![
        f32::MIN as f64 - 1f64,
        -4f64,
        -3f64,
        -2f64,
        -1f64,
        1f64,
        2f64,
        3f64,
        4f64,
        f32::MAX as f64 + 1f64,
    ];
    let vals = sort_f64(&vals);
    assert_eq!(expected, vals);
}
