use sotte::{MortonCode, MortonParameter, RadixSorter};

/// Quantises points of a box to the integer grid of a Morton code, axis by axis, as
/// the encoder of the renderer does: offset by the box's minimum, scale by the
/// inverse extent, clamp to [0, 1], scale to the largest coordinate and round.
struct Encoder {
    min: [f64; 3],
    inv_extent: [f64; 3],
}

impl Encoder {
    fn new(min: [f64; 3], max: [f64; 3]) -> Self {
        let mut inv_extent = [0.0; 3];
        for a in 0..3 {
            inv_extent[a] = 1.0 / (max[a] - min[a]);
        }
        Encoder { min, inv_extent }
    }

    fn grid(&self, p: [f64; 3], max_coord: f64) -> [f64; 3] {
        let mut v = [0.0; 3];
        for a in 0..3 {
            let n = ((p[a] - self.min[a]) * self.inv_extent[a]).clamp(0.0, 1.0);
            v[a] = (n * max_coord).round().clamp(0.0, max_coord);
        }
        v
    }

    fn encode_u32(&self, p: [f64; 3]) -> MortonCode<u32> {
        let max_coord = ((1u32 << <u32 as MortonParameter>::BITS_PER_AXIS) - 1) as f64;
        let v = self.grid(p, max_coord);
        MortonCode(<u32 as MortonParameter>::morton(v[0] as u32, v[1] as u32, v[2] as u32))
    }

    fn encode_u64(&self, p: [f64; 3]) -> MortonCode<u64> {
        let max_coord = ((1u64 << <u64 as MortonParameter>::BITS_PER_AXIS) - 1) as f64;
        let v = self.grid(p, max_coord);
        MortonCode(<u64 as MortonParameter>::morton(v[0] as u64, v[1] as u64, v[2] as u64))
    }
}

fn bbox() -> Encoder {
    Encoder::new([0.0; 3], [10.0; 3])
}

fn splat(x: f64) -> [f64; 3] {
    [x, x, x]
}

// ============ u32 ============

#[test]
fn test_encode_u32_origin() {
    let encoder = bbox();
    let code = encoder.encode_u32(splat(0.0));
    assert_eq!(code.0, 0, "Origin should encode to 0");
}

#[test]
fn test_encode_u32_max_corner() {
    let encoder = bbox();
    let code = encoder.encode_u32(splat(10.));
    let expected_max = (1 << (3 * <u32>::BITS_PER_AXIS)) - 1;
    assert_eq!(code, expected_max as u32, "Max corner should encode to max value");
}

#[test]
fn test_encode_u32_center() {
    let encoder = bbox();
    let code = encoder.encode_u32(splat(5.));
    let max_code = (1 << (3 * <u32>::BITS_PER_AXIS)) - 1;
    assert!(code.0 > 0 && code.0 < max_code, "Center should encode to middle range");
}

#[test]
fn test_encode_u32_single_axis() {
    let encoder = bbox();
    let c1 = encoder.encode_u32([5., 0., 0.]);
    let c2 = encoder.encode_u32([0., 5., 0.]);
    let c3 = encoder.encode_u32([0., 0., 5.]);
    assert!(c1 != c2 && c2 != c3 && c1 != c3, "Different axes should produce different codes");
}

#[test]
fn test_encode_u32_deterministic() {
    let encoder = bbox();
    let point = [3.7, 2.5, 8.1];
    let code1 = encoder.encode_u32(point);
    let code2 = encoder.encode_u32(point);
    assert_eq!(code1, code2.0, "Same input should always produce same output");
}

#[test]
fn test_encode_u32_in_range() {
    let encoder = bbox();
    for i in 0..10 {
        let x = i as f64;
        let y = (9 - i) as f64;
        let code = encoder.encode_u32([x, y, 5.0]);
        let max_code = (1u64 << (3 * <u32>::BITS_PER_AXIS)) - 1;
        assert!(code.0 as u64 <= max_code, "Code should fit in allocated bits");
    }
}

// ============ u64 ============

#[test]
fn test_encode_u64_origin() {
    let encoder = bbox();
    let code = encoder.encode_u64(splat(0.0));
    assert_eq!(code, 0, "Origin should encode to 0");
}

#[test]
fn test_encode_u64_max_corner() {
    let encoder = bbox();
    let code = encoder.encode_u64(splat(10.));
    let expected_max = (1u128 << (3 * <u64>::BITS_PER_AXIS)) - 1;
    assert_eq!(code, expected_max as u64, "Max corner should encode to max value");
}

#[test]
fn test_encode_u64_center() {
    let encoder = bbox();
    let code = encoder.encode_u64(splat(5.));
    let max_code = (1u128 << (3 * <u64>::BITS_PER_AXIS)) - 1;
    assert!(code > 0 && code < (max_code as u64), "Center should encode to middle range");
}

#[test]
fn test_encode_u64_deterministic() {
    let encoder = bbox();
    let point = [3.7, 2.5, 8.1];
    let code1 = encoder.encode_u64(point);
    let code2 = encoder.encode_u64(point);
    assert_eq!(code1, code2.0, "Same input should always produce same output");
}

// ============ Edge cases ============

#[test]
fn test_non_origin_bounds() {
    let encoder = Encoder::new(splat(5.), splat(15.));
    let code_min = encoder.encode_u32(splat(5.));
    assert_eq!(code_min, 0, "Min corner should encode to 0");
    let code_max = encoder.encode_u32(splat(15.));
    let expected_max = (1 << (3 * <u32>::BITS_PER_AXIS)) - 1;
    assert_eq!(code_max, expected_max as u32, "Max corner should encode to max");
}

#[test]
fn test_asymmetric_bounds() {
    let encoder = Encoder::new([0.0; 3], [20., 10., 5.]);
    let code = encoder.encode_u32([10.0, 5.0, 2.5]);
    let max_code = (1u64 << (3 * <u32>::BITS_PER_AXIS)) - 1;
    assert!(code.0 as u64 <= max_code);
}

#[test]
fn test_spatial_locality() {
    let encoder = bbox();
    let c1 = encoder.encode_u32(splat(5.0));
    let c2 = encoder.encode_u32([5.1, 5.0, 5.0]);
    let xor = c1.0 ^ c2.0;
    let hamming_distance = xor.count_ones();
    println!("Hamming distance: {}", hamming_distance);
    assert!(hamming_distance <= 20, "Nearby points should have small Hamming distance");
}

// ============ Radix sort ============

#[test]
fn test_radix_sort_encoded_points() {
    let encoder = bbox();
    let points = [
        [8.0, 1.0, 3.0],
        [2.0, 7.0, 1.0],
        [5.0, 5.0, 5.0],
        [1.0, 1.0, 1.0],
        [9.0, 9.0, 9.0],
    ];
    let codes: Vec<_> = points.iter().map(|p| encoder.encode_u32(*p)).collect();
    let mut radix = codes.clone();
    radix.radix_sort();
    let mut expected = codes;
    expected.sort();
    assert_eq!(radix, expected);
}

#[test]
fn test_radix_sort_random_u32() {
    fastrand::seed(42);
    let max = 1u32 << (3 * <u32 as MortonParameter>::BITS_PER_AXIS);
    let data: Vec<MortonCode<u32>> = (0..100_000).map(|_| MortonCode(fastrand::u32(..max))).collect();
    let mut radix = data.clone();
    radix.radix_sort();
    let mut expected = data;
    expected.sort();
    assert_eq!(radix, expected);
}

#[test]
fn test_radix_sort_random_u64() {
    fastrand::seed(42);
    let max = 1u64 << (3 * <u64 as MortonParameter>::BITS_PER_AXIS);
    let data: Vec<MortonCode<u64>> = (0..100_000).map(|_| MortonCode(fastrand::u64(..max))).collect();
    let mut radix = data.clone();
    radix.radix_sort();
    let mut expected = data;
    expected.sort();
    assert_eq!(radix, expected);
}

// ============ Interleaving ============

#[test]
fn morton_places_axis_bits_in_turn() {
    assert_eq!(<u32 as MortonParameter>::morton(1, 0, 0), 1);
    assert_eq!(<u32 as MortonParameter>::morton(0, 1, 0), 2);
    assert_eq!(<u32 as MortonParameter>::morton(0, 0, 1), 4);
    assert_eq!(<u32 as MortonParameter>::morton(1, 1, 1), 7);
    assert_eq!(<u32 as MortonParameter>::morton(2, 0, 0), 8);
    assert_eq!(<u32 as MortonParameter>::morton(3, 5, 6), 427);
    assert_eq!(<u64 as MortonParameter>::morton(3, 5, 6), 427);
}

#[test]
fn voodoo_spreads_bits_three_apart() {
    assert_eq!(<u32 as MortonParameter>::voodoo(0b11), 0b1001);
    assert_eq!(<u32 as MortonParameter>::voodoo(0x3ff), 0x0924_9249);
    assert_eq!(<u64 as MortonParameter>::voodoo(0b101), 0b1_000_001);
    assert_eq!(<u64 as MortonParameter>::voodoo(0x1f_ffff), 0x1249_2492_4924_9249);
}

#[test]
fn morton_ignores_bits_beyond_the_axis_width() {
    assert_eq!(<u32 as MortonParameter>::morton(1 << 10, 1 << 11, u32::MAX << 10), 0);
    assert_eq!(<u64 as MortonParameter>::morton(1 << 21, 1 << 40, u64::MAX << 21), 0);
    assert_eq!(<u32 as MortonParameter>::morton(1025, 0, 0), 1);
}

#[test]
fn morton_far_corner_sets_every_bit() {
    assert_eq!(<u32 as MortonParameter>::morton(1023, 1023, 1023), (1 << 30) - 1);
    assert_eq!(<u64 as MortonParameter>::morton(0x1f_ffff, 0x1f_ffff, 0x1f_ffff), (1 << 63) - 1);
    assert_eq!(<u32 as MortonParameter>::morton(0, 0, 0), 0);
}

#[test]
fn morton_tells_points_apart() {
    let mut seen = std::collections::HashSet::new();
    for x in 0..8u32 {
        for y in 0..8u32 {
            for z in 0..8u32 {
                assert!(seen.insert(<u32 as MortonParameter>::morton(x, y, z)));
            }
        }
    }
    assert_eq!(seen.len(), 512);
}

#[test]
fn sort_keys_are_the_codes() {
    assert_eq!(<u32 as MortonParameter>::into_usize(77), 77);
    assert_eq!(<u64 as MortonParameter>::into_usize(1 << 40), 1usize << 40);
}

#[test]
fn par_radix_sort_matches_radix_sort() {
    fastrand::seed(7);
    let data: Vec<MortonCode<u64>> = (0..50_000).map(|_| MortonCode(fastrand::u64(..1u64 << 63))).collect();
    let mut a = data.clone();
    a.radix_sort();
    let mut b = data;
    b.par_radix_sort();
    assert_eq!(a, b);
}

#[test]
fn code_compares_with_its_value() {
    let c = MortonCode(5u32);
    assert!(c == 5u32);
    assert!(c < 6u32 && c > 4u32);
    assert_eq!(*c.as_ref(), 5u32);
}

#[test]
fn morton_order_respects_componentwise_order() {
    fastrand::seed(21);
    for _ in 0..2000 {
        let (x1, y1, z1) = (fastrand::u32(..1024), fastrand::u32(..1024), fastrand::u32(..1024));
        let (x2, y2, z2) = (fastrand::u32(x1..1024), fastrand::u32(y1..1024), fastrand::u32(z1..1024));
        assert!(<u32 as MortonParameter>::morton(x1, y1, z1) <= <u32 as MortonParameter>::morton(x2, y2, z2));
        let (a1, b1, c1) = (fastrand::u64(..1 << 21), fastrand::u64(..1 << 21), fastrand::u64(..1 << 21));
        let (a2, b2, c2) = (fastrand::u64(a1..1 << 21), fastrand::u64(b1..1 << 21), fastrand::u64(c1..1 << 21));
        assert!(<u64 as MortonParameter>::morton(a1, b1, c1) <= <u64 as MortonParameter>::morton(a2, b2, c2));
    }
}
