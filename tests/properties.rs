use radix::{
    radix_sort_float, radix_sort_inplace, radix_sort_int, F32Bits, F64Bits, Radix, RadixSortFloat,
    RadixSortInt,
};

/// A fixed pseudo-random sequence (xorshift), so that the tests need no outside crate.
fn scrambled(n: usize, seed: u64) -> Vec<u64> {
    let mut x = seed;
    let mut out = Vec::with_capacity(n);
    for _ in 0..n {
        x ^= x << 13;
        x ^= x >> 7;
        x ^= x << 17;
        out.push(x);
    }
    out
}

#[test]
fn sorting_sorted_integers_changes_nothing() {
    let mut vals: Vec<i64> = vec![i64::MIN, -70000, -256, -1, 0, 0, 255, 256, 65536, i64::MAX];
    let before = vals.clone();
    vals.radix_sort();
    assert_eq!(before, vals);
    vals.radix_sort();
    assert_eq!(before, vals);
}

#[test]
fn sorting_sorted_floats_changes_nothing() {
    let vals: Vec<f64> = vec![f64::NEG_INFINITY, -1e300, -2.5, -0.0, 0.0, 1e-300, 3.0, f64::INFINITY];
    let mut bits: Vec<F64Bits> = vals.iter().map(|v| F64Bits(v.to_bits())).collect();
    let before = bits.clone();
    bits.radix_sort();
    assert_eq!(before, bits);
}

#[test]
fn sorting_sorted_values_with_the_simple_sort_changes_nothing() {
    let mut vals: Vec<u32> = vec![0, 1, 1, 7, 300, 65535, 65536];
    let before = vals.clone();
    radix_sort_inplace(65536, &mut vals);
    assert_eq!(before, vals);
}

#[test]
fn integer_sort_is_a_permutation_in_order() {
    for seed in 1..6u64 {
        let raw = scrambled(500, seed);
        let mut vals: Vec<i32> = raw.iter().map(|v| *v as i32).collect();
        let mut expected = vals.clone();
        expected.sort();
        radix_sort_int(&mut vals);
        assert_eq!(expected, vals);

        let mut vals: Vec<u64> = raw.clone();
        let mut expected = vals.clone();
        expected.sort();
        vals.radix_sort();
        assert_eq!(expected, vals);

        let mut vals: Vec<i128> = raw.iter().map(|v| (*v as i64 as i128) * (*v as i128)).collect();
        let mut expected = vals.clone();
        expected.sort();
        vals.radix_sort();
        assert_eq!(expected, vals);
    }
}

#[test]
fn float_sort_is_a_permutation_in_order() {
    for seed in 1..6u64 {
        let raw = scrambled(400, seed);
        let vals: Vec<f32> = raw
            .iter()
            .map(|v| (*v as i64 as f32) / 1e12)
            .collect();
        let mut expected = vals.clone();
        expected.sort_by(|a, b| a.partial_cmp(b).unwrap());
        let mut bits: Vec<F32Bits> = vals.iter().map(|v| F32Bits(v.to_bits())).collect();
        radix_sort_float(&mut bits);
        let sorted: Vec<f32> = bits.iter().map(|b| f32::from_bits(b.0)).collect();
        assert_eq!(expected, sorted);
    }
}

#[test]
fn many_equal_low_bytes_still_sort() {
    // Every value shares its low bytes with many others; only the top bytes tell them apart.
    let mut vals: Vec<i32> = Vec::new();
    for hi in [-3i32, 2, -1, 0, 1, -2, 3] {
        for lo in [0x00ffi32, 0x0000, 0x00ff, 0x0100, 0x0000] {
            vals.push(hi * 0x0100_0000 + lo);
        }
    }
    let mut expected = vals.clone();
    expected.sort();
    vals.radix_sort();
    assert_eq!(expected, vals);
}

#[test]
fn unsigned_values_with_the_top_bit_set_sort_last() {
    let mut vals: Vec<u32> = vec![u32::MAX, 0, 0x8000_0000, 1, 0x7fff_ffff];
    vals.radix_sort();
    assert_eq!(vec![0, 1, 0x7fff_ffff, 0x8000_0000, u32::MAX], vals);

    let mut vals: Vec<u128> = vec![u128::MAX, 5, 1u128 << 127, 0];
    vals.radix_sort();
    assert_eq!(vec![0, 5, 1u128 << 127, u128::MAX], vals);
}

#[test]
fn signed_extremes_sort() {
    let mut vals: Vec<i32> = vec![i32::MAX, 0, i32::MIN, -1, 1];
    vals.radix_sort();
    assert_eq!(vec![i32::MIN, -1, 0, 1, i32::MAX], vals);

    let mut vals: Vec<i128> = vec![i128::MAX, -1, i128::MIN, 0];
    vals.radix_sort();
    assert_eq!(vec![i128::MIN, -1, 0, i128::MAX], vals);
}

#[test]
fn empty_and_single_inputs() {
    let mut vals: Vec<i64> = Vec::new();
    vals.radix_sort();
    assert!(vals.is_empty());

    let mut vals: Vec<u32> = vec![42];
    vals.radix_sort();
    assert_eq!(vec![42], vals);

    let mut bits: Vec<F32Bits> = Vec::new();
    bits.radix_sort();
    assert!(bits.is_empty());

    let mut vals: Vec<u32> = Vec::new();
    radix_sort_inplace(0, &mut vals);
    assert!(vals.is_empty());
}

#[test]
fn negative_zero_comes_before_zero() {
    let vals = [0.0f32, -0.0, 1.0, -1.0];
    let mut bits: Vec<F32Bits> = vals.iter().map(|v| F32Bits(v.to_bits())).collect();
    bits.radix_sort();
    let out: Vec<u32> = bits.iter().map(|b| b.0).collect();
    assert_eq!(
        vec![(-1.0f32).to_bits(), (-0.0f32).to_bits(), 0.0f32.to_bits(), 1.0f32.to_bits()],
        out
    );
}

#[test]
fn infinities_and_nan_by_bit_pattern() {
    let vals = [f64::NAN, f64::INFINITY, -f64::NAN, f64::NEG_INFINITY, 0.5];
    let mut bits: Vec<F64Bits> = vals.iter().map(|v| F64Bits(v.to_bits())).collect();
    bits.radix_sort();
    let out: Vec<u64> = bits.iter().map(|b| b.0).collect();
    assert_eq!(
        vec![
            (-f64::NAN).to_bits(),
            f64::NEG_INFINITY.to_bits(),
            0.5f64.to_bits(),
            f64::INFINITY.to_bits(),
            f64::NAN.to_bits(),
        ],
        out
    );
}

#[test]
fn simple_sort_small_input() {
    let mut vals: Vec<u32> = vec![4, 3, 2, 1];
    radix_sort_inplace(u32::MAX, &mut vals);
    assert_eq!(vec![1, 2, 3, 4], vals);
}

#[test]
fn simple_sort_with_a_tight_bound() {
    let mut vals: Vec<u32> = vec![5, 0, 7, 3, 3, 6, 1];
    radix_sort_inplace(7, &mut vals);
    assert_eq!(vec![0, 1, 3, 3, 5, 6, 7], vals);

    let raw = scrambled(300, 9);
    let mut vals: Vec<u32> = raw.iter().map(|v| *v as u32).collect();
    let mut expected = vals.clone();
    expected.sort();
    radix_sort_inplace(u32::MAX, &mut vals);
    assert_eq!(expected, vals);
}

#[test]
fn simple_sort_with_a_bound_too_low_keeps_the_values() {
    // Only bit 0 is looked at: odd values go after even ones, each group in input order.
    let mut vals: Vec<u32> = vec![9, 4, 3, 8];
    radix_sort_inplace(1, &mut vals);
    assert_eq!(vec![4, 8, 9, 3], vals);
}

#[test]
fn byte_extraction() {
    assert_eq!(0x56, 0x1234_5678u32.to_radix(8));
    assert_eq!(0x12, 0x1234_5678u32.to_radix(24));
    assert_eq!(0xff, (-1i32).to_radix(24));
    assert_eq!(0x80, i64::MIN.to_radix(56));
    assert_eq!(0x01, (1u128 << 120).to_radix(120));
    assert_eq!(0xfe, (-2i128).to_radix(0));
    assert_eq!(0xbf, F32Bits((-1.5f32).to_bits()).to_radix(24));
    assert_eq!(0x3f, F64Bits(1.0f64.to_bits()).to_radix(56));
    assert_eq!(8, u64::num_bytes());
    assert_eq!(16, i128::num_bytes());
    assert!(i32::is_signed());
    assert!(!u32::is_signed());
}
