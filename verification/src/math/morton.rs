use vstd::prelude::*;

verus! {

use vstd::std_specs::bits::{u32_leading_zeros, axiom_u32_leading_zeros, u64_leading_zeros, axiom_u64_leading_zeros};
use crate::math::radix::{RadixSorter, radix_sort_by_key, par_radix_sort_by_key, truncated_keys, is_stable_sort, key_is_total, key_is_deterministic, lemma_sorted_by_exact_keys, radix_passes, lemma_stable_sort_is_sorted, lemma_stable_sort_is_permutation};
use vstd::arithmetic::power2::{pow2, lemma2_to64, lemma_pow2_adds};
use vstd::arithmetic::div_mod::lemma_small_mod;

/// Whether bit `i` of the 32-bit word `x` is set.
pub open spec fn bit32(x: u32, i: u32) -> bool {
    (x >> i) & 1 == 1
}

/// Whether bit `i` of the 64-bit word `x` is set.
pub open spec fn bit64(x: u64, i: u64) -> bool {
    (x >> i) & 1 == 1
}

/// Bit `i` of the 30-bit Morton code of `(x, y, z)`: bit `3k + a` is bit `k` of
/// coordinate `a` (x for `a == 0`, y for `a == 1`, z for `a == 2`), for `k < 10`.
pub open spec fn morton_bit32(x: u32, y: u32, z: u32, i: u32) -> bool {
    i < 30 && bit32(if i % 3 == 0 { x } else if i % 3 == 1 { y } else { z }, i / 3)
}

/// Bit `i` of the 63-bit Morton code of `(x, y, z)`: bit `3k + a` is bit `k` of
/// coordinate `a`, for `k < 21`.
pub open spec fn morton_bit64(x: u64, y: u64, z: u64, i: u64) -> bool {
    i < 63 && bit64(if i % 3 == 0 { x } else if i % 3 == 1 { y } else { z }, i / 3)
}

/// `code` is the Morton (Z-order) code of the low 10 bits of `x`, `y` and `z`.
pub open spec fn is_morton32(code: u32, x: u32, y: u32, z: u32) -> bool {
    forall|i: u32| i < 32 ==> #[trigger] bit32(code, i) == morton_bit32(x, y, z, i)
}

/// `code` is the Morton (Z-order) code of the low 21 bits of `x`, `y` and `z`.
pub open spec fn is_morton64(code: u64, x: u64, y: u64, z: u64) -> bool {
    forall|i: u64| i < 64 ==> #[trigger] bit64(code, i) == morton_bit64(x, y, z, i)
}

/// `r` holds bit `k` of `v` at bit `3k`, for `k < 10`, and nothing else.
pub open spec fn is_spread32(r: u32, v: u32) -> bool {
    forall|i: u32| i < 32 ==> #[trigger] bit32(r, i) == (i % 3 == 0 && i < 30 && bit32(v, i / 3))
}

/// `r` holds bit `k` of `v` at bit `3k`, for `k < 21`, and nothing else.
pub open spec fn is_spread64(r: u64, v: u64) -> bool {
    forall|i: u64| i < 64 ==> #[trigger] bit64(r, i) == (i % 3 == 0 && i < 63 && bit64(v, i / 3))
}

spec fn spread10(v: u32) -> u32 {
    let v = v & 0x0000_03ff;
    let v = (v | (v << 16u32)) & 0x0300_00ff;
    let v = (v | (v << 8u32)) & 0x0300_f00f;
    let v = (v | (v << 4u32)) & 0x030c_30c3;
    (v | (v << 2u32)) & 0x0924_9249
}

spec fn spread21(v: u64) -> u64 {
    let v = v & 0x1f_ffff;
    let v = (v | (v << 32u64)) & 0x001f_0000_0000_ffff;
    let v = (v | (v << 16u64)) & 0x001f_0000_ff00_00ff;
    let v = (v | (v << 8u64)) & 0x100f_00f0_0f00_f00f;
    let v = (v | (v << 4u64)) & 0x10c3_0c30_c30c_30c3;
    (v | (v << 2u64)) & 0x1249_2492_4924_9249
}

spec fn interleave32(x: u32, y: u32, z: u32) -> u32 {
    spread10(x) | (spread10(y) << 1u32) | (spread10(z) << 2u32)
}

spec fn interleave64(x: u64, y: u64, z: u64) -> u64 {
    spread21(x) | (spread21(y) << 1u64) | (spread21(z) << 2u64)
}

proof fn lemma_spread10(v: u32)
    ensures
        is_spread32(spread10(v), v),
{
    assert forall|i: u32| i < 32 implies #[trigger] bit32(spread10(v), i) == (i % 3 == 0 && i < 30
        && bit32(v, i / 3)) by {
        assert(((spread10(v) >> i) & 1 == 1) == (i % 3 == 0 && i < 30 && (v >> (i / 3)) & 1 == 1))
            by (bit_vector)
            requires
                i < 32,
        ;
    }
}

proof fn lemma_spread21(v: u64)
    ensures
        is_spread64(spread21(v), v),
{
    assert forall|i: u64| i < 64 implies #[trigger] bit64(spread21(v), i) == (i % 3 == 0 && i < 63
        && bit64(v, i / 3)) by {
        assert(((spread21(v) >> i) & 1 == 1) == (i % 3 == 0 && i < 63 && (v >> (i / 3)) & 1 == 1))
            by (bit_vector)
            requires
                i < 64,
        ;
    }
}

proof fn lemma_interleave32(x: u32, y: u32, z: u32)
    ensures
        is_morton32(interleave32(x, y, z), x, y, z),
{
    assert forall|i: u32| i < 32 implies #[trigger] bit32(interleave32(x, y, z), i)
        == morton_bit32(x, y, z, i) by {
        let c = interleave32(x, y, z);
        assert(((c >> i) & 1 == 1) == (i < 30 && ((if i % 3 == 0 { x } else if i % 3 == 1 { y } else { z }) >> (i / 3)) & 1 == 1))
            by (bit_vector)
            requires
                i < 32,
                c == interleave32(x, y, z),
        ;
    }
}

proof fn lemma_interleave64(x: u64, y: u64, z: u64)
    ensures
        is_morton64(interleave64(x, y, z), x, y, z),
{
    assert forall|i: u64| i < 64 implies #[trigger] bit64(interleave64(x, y, z), i)
        == morton_bit64(x, y, z, i) by {
        let c = interleave64(x, y, z);
        assert(((c >> i) & 1 == 1) == (i < 63 && ((if i % 3 == 0 { x } else if i % 3 == 1 { y } else { z }) >> (i / 3)) & 1 == 1))
            by (bit_vector)
            requires
                i < 64,
                c == interleave64(x, y, z),
        ;
    }
}


/// Two 32-bit words with the same bits are equal.
proof fn lemma_bits_eq32(a: u32, b: u32)
    requires
        forall|i: u32| i < 32 ==> #[trigger] bit32(a, i) == bit32(b, i),
    ensures
        a == b,
{
    if a != b {
        let d = a ^ b;
        assert(d != 0) by (bit_vector)
            requires
                a != b,
                d == a ^ b,
        ;
        axiom_u32_leading_zeros(d);
        let k: u32 = (31 - u32_leading_zeros(d)) as u32;
        assert((d >> k) & 1 != 0);
        assert(((d >> k) & 1 != 0) ==> (((a >> k) & 1 == 1) != ((b >> k) & 1 == 1))) by (bit_vector)
            requires
                d == a ^ b,
        ;
        assert(bit32(a, k) == bit32(b, k));
    }
}

/// Two 64-bit words with the same bits are equal.
proof fn lemma_bits_eq64(a: u64, b: u64)
    requires
        forall|i: u64| i < 64 ==> #[trigger] bit64(a, i) == bit64(b, i),
    ensures
        a == b,
{
    if a != b {
        let d = a ^ b;
        assert(d != 0) by (bit_vector)
            requires
                a != b,
                d == a ^ b,
        ;
        axiom_u64_leading_zeros(d);
        let k: u64 = (63 - u64_leading_zeros(d)) as u64;
        assert((d >> k) & 1 != 0);
        assert(((d >> k) & 1 != 0) ==> (((a >> k) & 1 == 1) != ((b >> k) & 1 == 1))) by (bit_vector)
            requires
                d == a ^ b,
        ;
        assert(bit64(a, k) == bit64(b, k));
    }
}

/// The Morton code of three coordinates is unique.
proof fn lemma_morton32_unique(c: u32, x: u32, y: u32, z: u32)
    requires
        is_morton32(c, x, y, z),
    ensures
        c == interleave32(x, y, z),
{
    lemma_interleave32(x, y, z);
    assert forall|i: u32| i < 32 implies #[trigger] bit32(c, i) == bit32(interleave32(x, y, z), i) by {
        assert(bit32(c, i) == morton_bit32(x, y, z, i));
        assert(bit32(interleave32(x, y, z), i) == morton_bit32(x, y, z, i));
    }
    lemma_bits_eq32(c, interleave32(x, y, z));
}

/// The Morton code of three coordinates is unique.
proof fn lemma_morton64_unique(c: u64, x: u64, y: u64, z: u64)
    requires
        is_morton64(c, x, y, z),
    ensures
        c == interleave64(x, y, z),
{
    lemma_interleave64(x, y, z);
    assert forall|i: u64| i < 64 implies #[trigger] bit64(c, i) == bit64(interleave64(x, y, z), i) by {
        assert(bit64(c, i) == morton_bit64(x, y, z, i));
        assert(bit64(interleave64(x, y, z), i) == morton_bit64(x, y, z, i));
    }
    lemma_bits_eq64(c, interleave64(x, y, z));
}


/// The coordinate widths that Morton codes are built for: 10 bits per axis in a
/// `u32` code, 21 bits per axis in a `u64` code.
pub trait MortonParameter: Copy + Send + Sync + Eq + Ord + core::fmt::Debug {
    const BITS_PER_AXIS: usize;
    const BUCKET_SIZE: usize;

    /// The key under which a code of this width is radix-sorted.
    spec fn sort_key(v: Self) -> usize;

    /// A code has between 3 and 66 bits.
    proof fn lemma_bits_per_axis()
        ensures
            1 <= Self::BITS_PER_AXIS <= 22,
    ;

    /// `r` holds bit `k` of `v` at bit `3k`, for `k < BITS_PER_AXIS`, and no other bit.
    spec fn is_spread(r: Self, v: Self) -> bool;

    /// `code` is the Morton code of the low `BITS_PER_AXIS` bits of `x`, `y` and
    /// `z`: bit `3k + a` is bit `k` of coordinate `a`, and no other bit is set.
    spec fn is_morton(code: Self, x: Self, y: Self, z: Self) -> bool;

    /// Spreads the low `BITS_PER_AXIS` bits of `v` out to every third bit.
    fn voodoo(v: Self) -> (r: Self)
        ensures
            Self::is_spread(r, v),
    ;

    /// The sort key of a code.
    fn into_usize(v: Self) -> (r: usize)
        ensures
            r == Self::sort_key(v),
    ;

    /// Interleaves the low `BITS_PER_AXIS` bits of three coordinates into one code.
    fn morton(x: Self, y: Self, z: Self) -> (r: Self)
        ensures
            Self::is_morton(r, x, y, z),
    ;
}

impl MortonParameter for u32 {
    const BITS_PER_AXIS: usize = 10;
    const BUCKET_SIZE: usize = 6;

    open spec fn sort_key(v: u32) -> usize {
        v as usize
    }

    open spec fn is_spread(r: u32, v: u32) -> bool {
        is_spread32(r, v)
    }

    open spec fn is_morton(code: u32, x: u32, y: u32, z: u32) -> bool {
        is_morton32(code, x, y, z)
    }

    proof fn lemma_bits_per_axis()
        ensures
            Self::BITS_PER_AXIS == 10,
    {
    }

    fn voodoo(v: u32) -> (r: u32)
        ensures
            is_spread32(r, v),
    {
        let mut v = v;
        let ghost v0 = v;
        v &= 0x0000_03ff;
        v = (v | (v << 16)) & 0x0300_00ff;
        v = (v | (v << 8)) & 0x0300_f00f;
        v = (v | (v << 4)) & 0x030c_30c3;
        v = (v | (v << 2)) & 0x0924_9249;
        proof {
            lemma_spread10(v0);
        }
        v
    }

    fn into_usize(v: u32) -> (r: usize) {
        v as usize
    }

    fn morton(x: u32, y: u32, z: u32) -> (r: u32)
        ensures
            is_morton32(r, x, y, z),
    {
        let sx = Self::voodoo(x);
        let sy = Self::voodoo(y);
        let sz = Self::voodoo(z);
        proof {
            lemma_spread32_unique(sx, x);
            lemma_spread32_unique(sy, y);
            lemma_spread32_unique(sz, z);
            lemma_interleave32(x, y, z);
        }
        sx | (sy << 1) | (sz << 2)
    }
}

impl MortonParameter for u64 {
    const BITS_PER_AXIS: usize = 21;
    const BUCKET_SIZE: usize = 9;

    open spec fn sort_key(v: u64) -> usize {
        v as usize
    }

    open spec fn is_spread(r: u64, v: u64) -> bool {
        is_spread64(r, v)
    }

    open spec fn is_morton(code: u64, x: u64, y: u64, z: u64) -> bool {
        is_morton64(code, x, y, z)
    }

    proof fn lemma_bits_per_axis()
        ensures
            Self::BITS_PER_AXIS == 21,
    {
    }

    fn voodoo(v: u64) -> (r: u64)
        ensures
            is_spread64(r, v),
    {
        let mut v = v;
        let ghost v0 = v;
        v &= 0x1f_ffff;
        v = (v | (v << 32)) & 0x001f_0000_0000_ffff;
        v = (v | (v << 16)) & 0x001f_0000_ff00_00ff;
        v = (v | (v << 8)) & 0x100f_00f0_0f00_f00f;
        v = (v | (v << 4)) & 0x10c3_0c30_c30c_30c3;
        v = (v | (v << 2)) & 0x1249_2492_4924_9249;
        proof {
            lemma_spread21(v0);
        }
        v
    }

    fn into_usize(v: u64) -> (r: usize) {
        v as usize
    }

    fn morton(x: u64, y: u64, z: u64) -> (r: u64)
        ensures
            is_morton64(r, x, y, z),
    {
        let sx = Self::voodoo(x);
        let sy = Self::voodoo(y);
        let sz = Self::voodoo(z);
        proof {
            lemma_spread64_unique(sx, x);
            lemma_spread64_unique(sy, y);
            lemma_spread64_unique(sz, z);
            lemma_interleave64(x, y, z);
        }
        sx | (sy << 1) | (sz << 2)
    }
}

proof fn lemma_spread32_unique(r: u32, v: u32)
    requires
        is_spread32(r, v),
    ensures
        r == spread10(v),
{
    lemma_spread10(v);
    assert forall|i: u32| i < 32 implies #[trigger] bit32(r, i) == bit32(spread10(v), i) by {
        assert(bit32(r, i) == (i % 3 == 0 && i < 30 && bit32(v, i / 3)));
        assert(bit32(spread10(v), i) == (i % 3 == 0 && i < 30 && bit32(v, i / 3)));
    }
    lemma_bits_eq32(r, spread10(v));
}

proof fn lemma_spread64_unique(r: u64, v: u64)
    requires
        is_spread64(r, v),
    ensures
        r == spread21(v),
{
    lemma_spread21(v);
    assert forall|i: u64| i < 64 implies #[trigger] bit64(r, i) == bit64(spread21(v), i) by {
        assert(bit64(r, i) == (i % 3 == 0 && i < 63 && bit64(v, i / 3)));
        assert(bit64(spread21(v), i) == (i % 3 == 0 && i < 63 && bit64(v, i / 3)));
    }
    lemma_bits_eq64(r, spread21(v));
}


/// The origin has Morton code 0.
pub proof fn lemma_morton32_origin(c: u32)
    requires
        is_morton32(c, 0, 0, 0),
    ensures
        c == 0,
{
    lemma_morton32_unique(c, 0, 0, 0);
    assert(interleave32(0, 0, 0) == 0) by (bit_vector);
}

/// The far corner, with all 10 low bits set on every axis, has the code whose
/// low 30 bits are all set.
pub proof fn lemma_morton32_far_corner(c: u32)
    requires
        is_morton32(c, 1023, 1023, 1023),
    ensures
        c == 0x3fff_ffff,
{
    lemma_morton32_unique(c, 1023, 1023, 1023);
    assert(interleave32(1023, 1023, 1023) == 0x3fff_ffff) by (bit_vector);
}

/// Every Morton code fits in 30 bits.
pub proof fn lemma_morton32_bound(c: u32, x: u32, y: u32, z: u32)
    requires
        is_morton32(c, x, y, z),
    ensures
        c < 0x4000_0000,
{
    lemma_morton32_unique(c, x, y, z);
    assert(interleave32(x, y, z) < 0x4000_0000) by (bit_vector);
}

/// Points whose coordinates fit in 10 bits are told apart by their Morton
/// codes: equal codes mean equal points.
pub proof fn lemma_morton32_injective(c: u32, x1: u32, y1: u32, z1: u32, x2: u32, y2: u32, z2: u32)
    requires
        is_morton32(c, x1, y1, z1),
        is_morton32(c, x2, y2, z2),
        x1 <= 1023, y1 <= 1023, z1 <= 1023,
        x2 <= 1023, y2 <= 1023, z2 <= 1023,
    ensures
        x1 == x2,
        y1 == y2,
        z1 == z2,
{
    lemma_coord32_from_code(c, x1, y1, z1, x2, y2, z2, 0);
    lemma_coord32_from_code(c, x1, y1, z1, x2, y2, z2, 1);
    lemma_coord32_from_code(c, x1, y1, z1, x2, y2, z2, 2);
}

proof fn lemma_coord32_from_code(c: u32, x1: u32, y1: u32, z1: u32, x2: u32, y2: u32, z2: u32, a: u32)
    requires
        is_morton32(c, x1, y1, z1),
        is_morton32(c, x2, y2, z2),
        x1 <= 1023, y1 <= 1023, z1 <= 1023,
        x2 <= 1023, y2 <= 1023, z2 <= 1023,
        a < 3,
    ensures
        a == 0 ==> x1 == x2,
        a == 1 ==> y1 == y2,
        a == 2 ==> z1 == z2,
{
    let p = if a == 0 { x1 } else if a == 1 { y1 } else { z1 };
    let q = if a == 0 { x2 } else if a == 1 { y2 } else { z2 };
    assert forall|k: u32| k < 32 implies #[trigger] bit32(p, k) == bit32(q, k) by {
        if k < 10 {
            let i: u32 = (3 * k + a) as u32;
            assert(i % 3 == a && i / 3 == k);
            assert(bit32(c, i) == morton_bit32(x1, y1, z1, i));
            assert(bit32(c, i) == morton_bit32(x2, y2, z2, i));
        } else {
            assert(((p >> k) & 1) == 0) by (bit_vector)
                requires
                    p <= 1023,
                    10 <= k < 32,
            ;
            assert(((q >> k) & 1) == 0) by (bit_vector)
                requires
                    q <= 1023,
                    10 <= k < 32,
            ;
        }
    }
    lemma_bits_eq32(p, q);
}


/// Morton order respects componentwise order: a point whose 10-bit coordinates
/// are each at most those of another point has a code at most the other's.
pub proof fn lemma_morton32_monotone(c1: u32, x1: u32, y1: u32, z1: u32, c2: u32, x2: u32, y2: u32, z2: u32)
    requires
        is_morton32(c1, x1, y1, z1),
        is_morton32(c2, x2, y2, z2),
        x1 <= x2 <= 1023,
        y1 <= y2 <= 1023,
        z1 <= z2 <= 1023,
    ensures
        c1 <= c2,
{
    lemma_morton32_unique(c1, x1, y1, z1);
    lemma_morton32_unique(c2, x2, y2, z2);
    lemma_spread10_monotone(x1, x2);
    lemma_spread10_monotone(y1, y2);
    lemma_spread10_monotone(z1, z2);
    lemma_spread10_sum(x1, y1, z1);
    lemma_spread10_sum(x2, y2, z2);
}

/// Spreading keeps the order of 10-bit values.
proof fn lemma_spread10_monotone(x1: u32, x2: u32)
    requires
        x1 <= x2 <= 1023,
    ensures
        spread10(x1) <= spread10(x2),
{
    assert(spread10(x1) <= spread10(x2)) by (bit_vector)
        requires
            x1 <= x2 <= 1023,
    ;
}

/// The three spread coordinates occupy disjoint bits, so the code is their
/// weighted sum.
proof fn lemma_spread10_sum(x: u32, y: u32, z: u32)
    ensures
        interleave32(x, y, z) == spread10(x) + 2 * spread10(y) + 4 * spread10(z),
{
    assert(interleave32(x, y, z) == spread10(x) + 2 * spread10(y) + 4 * spread10(z)) by (bit_vector);
}

/// The origin has Morton code 0.
pub proof fn lemma_morton64_origin(c: u64)
    requires
        is_morton64(c, 0, 0, 0),
    ensures
        c == 0,
{
    lemma_morton64_unique(c, 0, 0, 0);
    assert(interleave64(0, 0, 0) == 0) by (bit_vector);
}

/// The far corner, with all 21 low bits set on every axis, has the code whose
/// low 63 bits are all set.
pub proof fn lemma_morton64_far_corner(c: u64)
    requires
        is_morton64(c, 0x1f_ffff, 0x1f_ffff, 0x1f_ffff),
    ensures
        c == 0x7fff_ffff_ffff_ffff,
{
    lemma_morton64_unique(c, 0x1f_ffff, 0x1f_ffff, 0x1f_ffff);
    assert(interleave64(0x1f_ffff, 0x1f_ffff, 0x1f_ffff) == 0x7fff_ffff_ffff_ffff) by (bit_vector);
}

/// Every Morton code fits in 63 bits.
pub proof fn lemma_morton64_bound(c: u64, x: u64, y: u64, z: u64)
    requires
        is_morton64(c, x, y, z),
    ensures
        c < 0x8000_0000_0000_0000,
{
    lemma_morton64_unique(c, x, y, z);
    assert(interleave64(x, y, z) < 0x8000_0000_0000_0000) by (bit_vector);
}

/// Points whose coordinates fit in 21 bits are told apart by their Morton
/// codes: equal codes mean equal points.
pub proof fn lemma_morton64_injective(c: u64, x1: u64, y1: u64, z1: u64, x2: u64, y2: u64, z2: u64)
    requires
        is_morton64(c, x1, y1, z1),
        is_morton64(c, x2, y2, z2),
        x1 <= 0x1f_ffff, y1 <= 0x1f_ffff, z1 <= 0x1f_ffff,
        x2 <= 0x1f_ffff, y2 <= 0x1f_ffff, z2 <= 0x1f_ffff,
    ensures
        x1 == x2,
        y1 == y2,
        z1 == z2,
{
    lemma_coord64_from_code(c, x1, y1, z1, x2, y2, z2, 0);
    lemma_coord64_from_code(c, x1, y1, z1, x2, y2, z2, 1);
    lemma_coord64_from_code(c, x1, y1, z1, x2, y2, z2, 2);
}

proof fn lemma_coord64_from_code(c: u64, x1: u64, y1: u64, z1: u64, x2: u64, y2: u64, z2: u64, a: u64)
    requires
        is_morton64(c, x1, y1, z1),
        is_morton64(c, x2, y2, z2),
        x1 <= 0x1f_ffff, y1 <= 0x1f_ffff, z1 <= 0x1f_ffff,
        x2 <= 0x1f_ffff, y2 <= 0x1f_ffff, z2 <= 0x1f_ffff,
        a < 3,
    ensures
        a == 0 ==> x1 == x2,
        a == 1 ==> y1 == y2,
        a == 2 ==> z1 == z2,
{
    let p = if a == 0 { x1 } else if a == 1 { y1 } else { z1 };
    let q = if a == 0 { x2 } else if a == 1 { y2 } else { z2 };
    assert forall|k: u64| k < 64 implies #[trigger] bit64(p, k) == bit64(q, k) by {
        if k < 21 {
            let i: u64 = (3 * k + a) as u64;
            assert(i % 3 == a && i / 3 == k);
            assert(bit64(c, i) == morton_bit64(x1, y1, z1, i));
            assert(bit64(c, i) == morton_bit64(x2, y2, z2, i));
        } else {
            assert(((p >> k) & 1) == 0) by (bit_vector)
                requires
                    p <= 0x1f_ffff,
                    21 <= k < 64,
            ;
            assert(((q >> k) & 1) == 0) by (bit_vector)
                requires
                    q <= 0x1f_ffff,
                    21 <= k < 64,
            ;
        }
    }
    lemma_bits_eq64(p, q);
}



/// Morton order respects componentwise order: a point whose 21-bit coordinates
/// are each at most those of another point has a code at most the other's.
pub proof fn lemma_morton64_monotone(c1: u64, x1: u64, y1: u64, z1: u64, c2: u64, x2: u64, y2: u64, z2: u64)
    requires
        is_morton64(c1, x1, y1, z1),
        is_morton64(c2, x2, y2, z2),
        x1 <= x2 <= 0x1f_ffff,
        y1 <= y2 <= 0x1f_ffff,
        z1 <= z2 <= 0x1f_ffff,
    ensures
        c1 <= c2,
{
    lemma_morton64_unique(c1, x1, y1, z1);
    lemma_morton64_unique(c2, x2, y2, z2);
    lemma_spread21_monotone(x1, x2);
    lemma_spread21_monotone(y1, y2);
    lemma_spread21_monotone(z1, z2);
    lemma_spread21_sum(x1, y1, z1);
    lemma_spread21_sum(x2, y2, z2);
}

/// Spreading keeps the order of 21-bit values.
proof fn lemma_spread21_monotone(x1: u64, x2: u64)
    requires
        x1 <= x2 <= 0x1f_ffff,
    ensures
        spread21(x1) <= spread21(x2),
{
    assert(spread21(x1) <= spread21(x2)) by (bit_vector)
        requires
            x1 <= x2 <= 0x1f_ffff,
    ;
}

/// The three spread coordinates occupy disjoint bits, so the code is their
/// weighted sum.
proof fn lemma_spread21_sum(x: u64, y: u64, z: u64)
    ensures
        interleave64(x, y, z) == spread21(x) + 2 * spread21(y) + 4 * spread21(z),
{
    assert(interleave64(x, y, z) == spread21(x) + 2 * spread21(y) + 4 * spread21(z)) by (bit_vector);
}

/// A Morton code of coordinates of type `T`.
#[derive(PartialEq, PartialOrd, Eq, Ord, Clone, Copy, Debug, Hash)]
pub struct MortonCode<T: MortonParameter>(pub T);

impl<T: MortonParameter> AsRef<T> for MortonCode<T> {
    fn as_ref(&self) -> (r: &T)
        ensures
            *r == self.0,
    {
        &self.0
    }
}

/// The sort keys of a sequence of Morton codes.
pub open spec fn code_keys<T: MortonParameter>(codes: Seq<MortonCode<T>>) -> Seq<usize> {
    Seq::new(codes.len(), |i: int| T::sort_key(codes[i].0))
}

impl<T: MortonParameter> RadixSorter for Vec<MortonCode<T>> {
    /// Sorts the codes stably by the low `6 * ceil(BITS_PER_AXIS / 2)` bits of
    /// their keys: all bits of a code of `3 * BITS_PER_AXIS` bits.
    fn radix_sort(&mut self)
        ensures
            is_stable_sort(final(self)@, old(self)@, truncated_keys(code_keys(old(self)@), (3 * T::BITS_PER_AXIS) as nat)),
    {
        proof {
            T::lemma_bits_per_axis();
        }
        let ghost inp = self@;
        let key = |code: &MortonCode<T>| -> (r: usize)
            ensures
                r == T::sort_key(code.0),
            { T::into_usize(code.0) };
        assert(key_is_total::<MortonCode<T>, _>(key));
        assert(key_is_deterministic::<MortonCode<T>, _>(key));
        radix_sort_by_key(self, 3 * T::BITS_PER_AXIS, key);
        proof {
            lemma_sorted_by_exact_keys(self@, inp, key, code_keys(inp), (3 * T::BITS_PER_AXIS) as nat);
        }
    }

    /// Sorts as `radix_sort` does, counting in parallel.
    fn par_radix_sort(&mut self)
        ensures
            is_stable_sort(final(self)@, old(self)@, truncated_keys(code_keys(old(self)@), (3 * T::BITS_PER_AXIS) as nat)),
    {
        proof {
            T::lemma_bits_per_axis();
        }
        let ghost inp = self@;
        let key = |code: &MortonCode<T>| -> (r: usize)
            ensures
                r == T::sort_key(code.0),
            { T::into_usize(code.0) };
        assert(key_is_total::<MortonCode<T>, _>(key));
        assert(key_is_deterministic::<MortonCode<T>, _>(key));
        par_radix_sort_by_key(self, 3 * T::BITS_PER_AXIS, key);
        proof {
            lemma_sorted_by_exact_keys(self@, inp, key, code_keys(inp), (3 * T::BITS_PER_AXIS) as nat);
        }
    }
}


/// The sort key of a 32-bit code is its value.
pub proof fn lemma_sort_key_u32(v: u32)
    ensures
        <u32 as MortonParameter>::sort_key(v) == v,
{
}

/// The sort key of a 64-bit code that fits in a `usize` is its value.
pub proof fn lemma_sort_key_u64(v: u64)
    requires
        v <= usize::MAX,
    ensures
        <u64 as MortonParameter>::sort_key(v) == v,
{
}

/// Radix-sorting 32-bit Morton codes (of 10-bit coordinates, so below 2^30)
/// rearranges them into non-decreasing order of value.
pub proof fn lemma_radix_sorted_u32(out: Seq<MortonCode<u32>>, inp: Seq<MortonCode<u32>>)
    requires
        is_stable_sort(out, inp, truncated_keys(code_keys(inp), (3 * <u32 as MortonParameter>::BITS_PER_AXIS) as nat)),
        forall|i: int| 0 <= i < inp.len() ==> #[trigger] inp[i].0 < 0x4000_0000,
    ensures
        forall|p: int, q: int| 0 <= p < q < out.len() ==> (#[trigger] out[p]).0 <= (#[trigger] out[q]).0,
        out.to_multiset() == inp.to_multiset(),
{
    <u32 as MortonParameter>::lemma_bits_per_axis();
    let keys = truncated_keys(code_keys(inp), 30);
    lemma2_to64();
    assert(radix_passes(30) == 5);
    assert forall|i: int| 0 <= i < inp.len() implies keys[i] == (#[trigger] inp[i]).0 as int by {
        lemma_sort_key_u32(inp[i].0);
        lemma_small_mod(inp[i].0 as nat, pow2(30));
    }
    lemma_stable_sort_is_sorted(out, inp, keys, |c: MortonCode<u32>| c.0 as int);
    lemma_stable_sort_is_permutation(out, inp, keys);
}

/// Radix-sorting 64-bit Morton codes that fit in a `usize` rearranges them into
/// non-decreasing order of value.
pub proof fn lemma_radix_sorted_u64(out: Seq<MortonCode<u64>>, inp: Seq<MortonCode<u64>>)
    requires
        is_stable_sort(out, inp, truncated_keys(code_keys(inp), (3 * <u64 as MortonParameter>::BITS_PER_AXIS) as nat)),
        forall|i: int| 0 <= i < inp.len() ==> #[trigger] inp[i].0 <= usize::MAX,
    ensures
        forall|p: int, q: int| 0 <= p < q < out.len() ==> (#[trigger] out[p]).0 <= (#[trigger] out[q]).0,
        out.to_multiset() == inp.to_multiset(),
{
    <u64 as MortonParameter>::lemma_bits_per_axis();
    let keys = truncated_keys(code_keys(inp), 63);
    lemma2_to64();
    lemma_pow2_adds(64, 2);
    assert(radix_passes(63) == 11);
    assert(pow2(66) == 0x4_0000_0000_0000_0000);
    assert forall|i: int| 0 <= i < inp.len() implies keys[i] == (#[trigger] inp[i]).0 as int by {
        lemma_sort_key_u64(inp[i].0);
        lemma_small_mod(inp[i].0 as nat, pow2(66));
    }
    lemma_stable_sort_is_sorted(out, inp, keys, |c: MortonCode<u64>| c.0 as int);
    lemma_stable_sort_is_permutation(out, inp, keys);
}


/// What `voodoo` promises of a 32-bit value: bit `3k` of the result is bit `k` of
/// the input for `k < 10`, and every other bit is clear.
pub proof fn lemma_spread_u32(r: u32, v: u32)
    ensures
        <u32 as MortonParameter>::is_spread(r, v) <==> forall|i: u32| i < 32 ==>
            (#[trigger] ((r >> i) & 1) == 1) == (i % 3 == 0 && i < 30 && (v >> (i / 3)) & 1 == 1),
{
    if <u32 as MortonParameter>::is_spread(r, v) {
        assert forall|i: u32| i < 32 implies (#[trigger] ((r >> i) & 1) == 1) == (i % 3 == 0 && i < 30 && (v >> (i / 3)) & 1 == 1) by {
            assert(bit32(r, i) == ((r >> i) & 1 == 1));
        }
    }
    if forall|i: u32| i < 32 ==> (#[trigger] ((r >> i) & 1) == 1) == (i % 3 == 0 && i < 30 && (v >> (i / 3)) & 1 == 1) {
        assert forall|i: u32| i < 32 implies #[trigger] bit32(r, i) == (i % 3 == 0 && i < 30 && (v >> (i / 3)) & 1 == 1) by {
            assert(((r >> i) & 1 == 1) == (i % 3 == 0 && i < 30 && (v >> (i / 3)) & 1 == 1));
        }
    }
}

/// What `voodoo` promises of a 64-bit value: bit `3k` of the result is bit `k` of
/// the input for `k < 21`, and every other bit is clear.
pub proof fn lemma_spread_u64(r: u64, v: u64)
    ensures
        <u64 as MortonParameter>::is_spread(r, v) <==> forall|i: u64| i < 64 ==>
            (#[trigger] ((r >> i) & 1) == 1) == (i % 3 == 0 && i < 63 && (v >> (i / 3)) & 1 == 1),
{
    if <u64 as MortonParameter>::is_spread(r, v) {
        assert forall|i: u64| i < 64 implies (#[trigger] ((r >> i) & 1) == 1) == (i % 3 == 0 && i < 63 && (v >> (i / 3)) & 1 == 1) by {
            assert(bit64(r, i) == ((r >> i) & 1 == 1));
        }
    }
    if forall|i: u64| i < 64 ==> (#[trigger] ((r >> i) & 1) == 1) == (i % 3 == 0 && i < 63 && (v >> (i / 3)) & 1 == 1) {
        assert forall|i: u64| i < 64 implies #[trigger] bit64(r, i) == (i % 3 == 0 && i < 63 && (v >> (i / 3)) & 1 == 1) by {
            assert(((r >> i) & 1 == 1) == (i % 3 == 0 && i < 63 && (v >> (i / 3)) & 1 == 1));
        }
    }
}

/// What `morton` promises of 32-bit coordinates: bit `3k + a` of the code is bit
/// `k` of coordinate `a` (x, y, z for `a` = 0, 1, 2) for `k < 10`, and bits 30
/// and 31 are clear.
pub proof fn lemma_morton_u32(c: u32, x: u32, y: u32, z: u32)
    ensures
        <u32 as MortonParameter>::is_morton(c, x, y, z) <==> forall|i: u32| i < 32 ==>
            (#[trigger] ((c >> i) & 1) == 1) == (i < 30 && ((if i % 3 == 0 { x } else if i % 3 == 1 { y } else { z }) >> (i / 3)) & 1 == 1),
{
    if <u32 as MortonParameter>::is_morton(c, x, y, z) {
        assert forall|i: u32| i < 32 implies (#[trigger] ((c >> i) & 1) == 1) == (i < 30 && ((if i % 3 == 0 { x } else if i % 3 == 1 { y } else { z }) >> (i / 3)) & 1 == 1) by {
            assert(bit32(c, i) == ((c >> i) & 1 == 1));
        }
    }
    if forall|i: u32| i < 32 ==> (#[trigger] ((c >> i) & 1) == 1) == (i < 30 && ((if i % 3 == 0 { x } else if i % 3 == 1 { y } else { z }) >> (i / 3)) & 1 == 1) {
        assert forall|i: u32| i < 32 implies #[trigger] bit32(c, i) == (i < 30 && ((if i % 3 == 0 { x } else if i % 3 == 1 { y } else { z }) >> (i / 3)) & 1 == 1) by {
            assert(((c >> i) & 1 == 1) == (i < 30 && ((if i % 3 == 0 { x } else if i % 3 == 1 { y } else { z }) >> (i / 3)) & 1 == 1));
        }
    }
}

/// What `morton` promises of 64-bit coordinates: bit `3k + a` of the code is bit
/// `k` of coordinate `a` (x, y, z for `a` = 0, 1, 2) for `k < 21`, and bit 63 is
/// clear.
pub proof fn lemma_morton_u64(c: u64, x: u64, y: u64, z: u64)
    ensures
        <u64 as MortonParameter>::is_morton(c, x, y, z) <==> forall|i: u64| i < 64 ==>
            (#[trigger] ((c >> i) & 1) == 1) == (i < 63 && ((if i % 3 == 0 { x } else if i % 3 == 1 { y } else { z }) >> (i / 3)) & 1 == 1),
{
    if <u64 as MortonParameter>::is_morton(c, x, y, z) {
        assert forall|i: u64| i < 64 implies (#[trigger] ((c >> i) & 1) == 1) == (i < 63 && ((if i % 3 == 0 { x } else if i % 3 == 1 { y } else { z }) >> (i / 3)) & 1 == 1) by {
            assert(bit64(c, i) == ((c >> i) & 1 == 1));
        }
    }
    if forall|i: u64| i < 64 ==> (#[trigger] ((c >> i) & 1) == 1) == (i < 63 && ((if i % 3 == 0 { x } else if i % 3 == 1 { y } else { z }) >> (i / 3)) & 1 == 1) {
        assert forall|i: u64| i < 64 implies #[trigger] bit64(c, i) == (i < 63 && ((if i % 3 == 0 { x } else if i % 3 == 1 { y } else { z }) >> (i / 3)) & 1 == 1) by {
            assert(((c >> i) & 1 == 1) == (i < 63 && ((if i % 3 == 0 { x } else if i % 3 == 1 { y } else { z }) >> (i / 3)) & 1 == 1));
        }
    }
}

} // verus!
