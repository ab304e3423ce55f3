use vstd::prelude::*;

verus! {

use vstd::std_specs::bits::{u64_leading_zeros, axiom_u64_leading_zeros};

/// Length of the common prefix of the 64-bit words `x` and `y`.
pub open spec fn common_prefix(x: u64, y: u64) -> int {
    u64_leading_zeros(x ^ y)
}

/// For `x < y < z`, the common prefix of `x` and `z` is the shorter of the other two,
/// and those two differ.
proof fn lemma_prefix_triangle(x: u64, y: u64, z: u64)
    requires
        x < y < z,
    ensures
        common_prefix(x, z) == if common_prefix(x, y) < common_prefix(y, z) { common_prefix(x, y) } else { common_prefix(y, z) },
        common_prefix(x, y) != common_prefix(y, z),
{
    let a = x ^ y;
    let b = y ^ z;
    let c = x ^ z;
    axiom_u64_leading_zeros(a);
    axiom_u64_leading_zeros(b);
    axiom_u64_leading_zeros(c);
    assert(a != 0 && b != 0 && c != 0) by (bit_vector)
        requires
            x < y < z,
            a == x ^ y,
            b == y ^ z,
            c == x ^ z,
    ;
    let p = u64_leading_zeros(a) as u64;
    let q = u64_leading_zeros(b) as u64;
    let r = u64_leading_zeros(c) as u64;
    let p1: u64 = (63 - p) as u64;
    let q1: u64 = (63 - q) as u64;
    let r1: u64 = (63 - r) as u64;
    assert((a >> p1) & 1 != 0 && (b >> q1) & 1 != 0 && (c >> r1) & 1 != 0);
    assert(a >> ((p1 + 1) as u64) == 0 && b >> ((q1 + 1) as u64) == 0 && c >> ((r1 + 1) as u64) == 0);
    assert(p1 != q1 && r1 == if p1 > q1 { p1 } else { q1 }) by (bit_vector)
        requires
            x < y < z,
            a == x ^ y,
            b == y ^ z,
            c == x ^ z,
            p1 < 64,
            q1 < 64,
            r1 < 64,
            (a >> p1) & 1 != 0,
            (b >> q1) & 1 != 0,
            (c >> r1) & 1 != 0,
            a >> ((p1 + 1) as u64) == 0,
            b >> ((q1 + 1) as u64) == 0,
            c >> ((r1 + 1) as u64) == 0,
    ;
}


/// The keys are in strictly increasing order.
pub open spec fn strictly_increasing(ks: Seq<u64>) -> bool {
    forall|a: int, b: int| 0 <= a < b < ks.len() ==> #[trigger] ks[a] < #[trigger] ks[b]
}

/// Length of the common prefix of keys `i` and `j`, or -1 where either index lies
/// outside the keys.
pub open spec fn delta(ks: Seq<u64>, i: int, j: int) -> int {
    if 0 <= i < ks.len() && 0 <= j < ks.len() {
        common_prefix(ks[i], ks[j])
    } else {
        -1
    }
}

/// The direction in which the node at index `i` extends its range: towards the
/// neighbour with which key `i` shares the longer prefix.
pub open spec fn karras_dir(ks: Seq<u64>, i: int) -> int {
    if delta(ks, i, i + 1) > delta(ks, i, i - 1) {
        1
    } else {
        -1
    }
}

/// The prefix length that the range of the node at index `i` must exceed: the
/// one that key `i` shares with its neighbour on the other side.
pub open spec fn karras_floor(ks: Seq<u64>, i: int) -> int {
    delta(ks, i, i - karras_dir(ks, i))
}

/// `[first, last]` is the key range of the node at index `i`: it starts at `i` and
/// extends in direction `karras_dir` as far as the keys share more than
/// `karras_floor` leading bits with key `i`.
pub open spec fn is_karras_range(ks: Seq<u64>, i: int, first: int, last: int) -> bool {
    let d = karras_dir(ks, i);
    let j = if d == 1 { last } else { first };
    &&& 0 <= first <= i <= last < ks.len()
    &&& (d == 1 ==> first == i)
    &&& (d == -1 ==> last == i)
    &&& delta(ks, i, j) > karras_floor(ks, i)
    &&& delta(ks, i, j + d) <= karras_floor(ks, i)
}

/// `split` is where the range `[first, last]` divides: the last index whose key
/// shares more leading bits with key `first` than all keys of the range share.
pub open spec fn is_karras_split(ks: Seq<u64>, first: int, split: int, last: int) -> bool {
    &&& first <= split < last
    &&& delta(ks, first, split) > delta(ks, first, last)
    &&& (split + 1 == last || delta(ks, first, split + 1) <= delta(ks, first, last))
}

/// `[f, l]` is a range of the binary radix tree of the keys: its keys share a
/// longer prefix than either of them shares with the key just outside.
pub open spec fn good_range(ks: Seq<u64>, f: int, l: int) -> bool {
    &&& 0 <= f < l < ks.len()
    &&& delta(ks, f - 1, f) < delta(ks, f, l)
    &&& delta(ks, l, l + 1) < delta(ks, f, l)
}

/// The index of the internal node that covers the range `[f, l]`: the end of the
/// range that lies on the side of the longer outer prefix.
pub open spec fn range_index(ks: Seq<u64>, f: int, l: int) -> int {
    if delta(ks, f - 1, f) >= delta(ks, l, l + 1) {
        f
    } else {
        l
    }
}

pub proof fn lemma_delta_basics(ks: Seq<u64>, a: int, b: int)
    requires
        strictly_increasing(ks),
        0 <= a < ks.len(),
        0 <= b < ks.len(),
    ensures
        delta(ks, a, b) == delta(ks, b, a),
        a == b ==> delta(ks, a, b) == 64,
        a != b ==> 0 <= delta(ks, a, b) < 64,
{
    let x = ks[a];
    let y = ks[b];
    assert(x ^ y == y ^ x) by (bit_vector);
    axiom_u64_leading_zeros(x ^ y);
    if a == b {
        assert(x ^ x == 0) by (bit_vector);
    } else {
        assert(x != y);
        assert(x != y ==> x ^ y != 0) by (bit_vector);
    }
}

/// For `a < b < c`, key `a` shares with key `c` the shorter of the prefixes along
/// the way, and those two prefixes differ.
pub proof fn lemma_delta_triangle(ks: Seq<u64>, a: int, b: int, c: int)
    requires
        strictly_increasing(ks),
        0 <= a < b < c < ks.len(),
    ensures
        delta(ks, a, c) == if delta(ks, a, b) < delta(ks, b, c) { delta(ks, a, b) } else { delta(ks, b, c) },
        delta(ks, a, b) != delta(ks, b, c),
{
    lemma_prefix_triangle(ks[a], ks[b], ks[c]);
}


/// The keys are in non-decreasing order.
pub open spec fn non_decreasing(ks: Seq<u64>) -> bool {
    forall|a: int, b: int| 0 <= a <= b < ks.len() ==> #[trigger] ks[a] <= #[trigger] ks[b]
}

/// On non-decreasing keys, for `a <= b <= c`, key `a` shares with key `c` the
/// shorter of the prefixes along the way: common prefixes shrink as a range widens.
pub proof fn lemma_delta_min(ks: Seq<u64>, a: int, b: int, c: int)
    requires
        non_decreasing(ks),
        0 <= a <= b <= c < ks.len(),
    ensures
        delta(ks, a, c) == if delta(ks, a, b) < delta(ks, b, c) { delta(ks, a, b) } else { delta(ks, b, c) },
{
    let x = ks[a];
    let y = ks[b];
    let z = ks[c];
    axiom_u64_leading_zeros(x ^ y);
    axiom_u64_leading_zeros(y ^ z);
    axiom_u64_leading_zeros(x ^ z);
    if x == y {
        assert(x ^ y == 0) by (bit_vector)
            requires
                x == y,
        ;
    } else if y == z {
        assert(y ^ z == 0) by (bit_vector)
            requires
                y == z,
        ;
    } else {
        lemma_prefix_triangle(x, y, z);
    }
}

/// Widening a range never lengthens the prefix its ends share.
pub proof fn lemma_delta_widen(ks: Seq<u64>, a: int, b: int, c: int)
    requires
        strictly_increasing(ks),
        0 <= a <= b <= c < ks.len(),
    ensures
        delta(ks, a, c) <= delta(ks, a, b),
        delta(ks, a, c) <= delta(ks, b, c),
{
    lemma_delta_basics(ks, a, b);
    lemma_delta_basics(ks, b, c);
    lemma_delta_basics(ks, a, c);
    if a < b && b < c {
        lemma_delta_triangle(ks, a, b, c);
    }
}


/// The node at the index of a radix-tree range finds exactly that range.
pub proof fn lemma_karras_range_of_good(ks: Seq<u64>, f: int, l: int, first: int, last: int)
    requires
        strictly_increasing(ks),
        good_range(ks, f, l),
        range_index(ks, f, l) < ks.len() - 1,
        is_karras_range(ks, range_index(ks, f, l), first, last),
    ensures
        first == f,
        last == l,
{
    let n = ks.len() as int;
    let i = range_index(ks, f, l);
    lemma_delta_basics(ks, f, l);
    if i == f {
        lemma_delta_widen(ks, f, f + 1, l);
        if f > 0 {
            lemma_delta_basics(ks, f, f - 1);
        }
        assert(karras_dir(ks, i) == 1);
        assert(karras_floor(ks, i) == delta(ks, f - 1, f));
        if last > l {
            lemma_delta_widen(ks, f, l + 1, last);
            lemma_delta_triangle(ks, f, l, l + 1);
            assert(false);
        } else if last < l {
            lemma_delta_widen(ks, f, last + 1, l);
            assert(false);
        }
    } else {
        lemma_delta_widen(ks, f, l - 1, l);
        lemma_delta_basics(ks, l, l - 1);
        assert(karras_dir(ks, i) == -1);
        assert(karras_floor(ks, i) == delta(ks, l, l + 1));
        if first < f {
            lemma_delta_widen(ks, first, f - 1, l);
            lemma_delta_basics(ks, l, first);
            lemma_delta_triangle(ks, f - 1, f, l);
            assert(false);
        } else if first > f {
            lemma_delta_widen(ks, f, first - 1, l);
            lemma_delta_basics(ks, l, first - 1);
            assert(false);
        }
    }
}

/// The two halves of a radix-tree range, split where `is_karras_split` says, are
/// again radix-tree ranges, found from their inner ends.
pub proof fn lemma_split_children(ks: Seq<u64>, f: int, s: int, l: int)
    requires
        strictly_increasing(ks),
        good_range(ks, f, l),
        is_karras_split(ks, f, s, l),
    ensures
        s > f ==> good_range(ks, f, s) && range_index(ks, f, s) == s,
        s + 1 < l ==> good_range(ks, s + 1, l) && range_index(ks, s + 1, l) == s + 1,
{
    let dn = delta(ks, f, l);
    lemma_delta_basics(ks, f, l);
    // The split point shares exactly the node prefix with its successor.
    if s + 1 < l {
        lemma_delta_triangle(ks, f, s + 1, l);
    }
    if s > f {
        lemma_delta_triangle(ks, f, s, s + 1);
    } else {
        lemma_delta_basics(ks, f, f);
    }
    if s + 1 < l {
        lemma_delta_triangle(ks, s, s + 1, l);
    }
    if f < s {
        lemma_delta_triangle(ks, f, s, l);
    }
    assert(delta(ks, s, s + 1) == dn) by {
        if s + 1 == l {
            if f < s {
                lemma_delta_triangle(ks, f, s, l);
            }
        } else {
            if f < s {
                lemma_delta_triangle(ks, f, s, l);
                lemma_delta_triangle(ks, s, s + 1, l);
            } else {
                lemma_delta_triangle(ks, s, s + 1, l);
            }
        }
    }
    if s > f {
        assert(delta(ks, f - 1, f) < delta(ks, f, s));
        assert(delta(ks, s, s + 1) < delta(ks, f, s));
    }
    if s + 1 < l {
        lemma_delta_triangle(ks, s, s + 1, l);
        assert(delta(ks, s + 1, l) > dn);
        assert(delta(ks, s, s + 1) < delta(ks, s + 1, l));
    }
}

/// The whole key range is the range of the root, node 0.
pub proof fn lemma_root_range(ks: Seq<u64>)
    requires
        strictly_increasing(ks),
        ks.len() >= 2,
    ensures
        good_range(ks, 0, ks.len() - 1),
        range_index(ks, 0, ks.len() - 1) == 0,
{
    lemma_delta_basics(ks, 0, ks.len() - 1);
}

/// A range has one split.
pub proof fn lemma_split_unique(ks: Seq<u64>, f: int, s1: int, s2: int, l: int)
    requires
        strictly_increasing(ks),
        l < ks.len(),
        is_karras_split(ks, f, s1, l),
        is_karras_split(ks, f, s2, l),
    ensures
        s1 == s2,
{
    if s1 < s2 {
        lemma_delta_widen(ks, f, s1 + 1, s2);
    } else if s2 < s1 {
        lemma_delta_widen(ks, f, s2 + 1, s1);
    }
}


/// Prefix lengths lie in `[-1, 64]`.
pub proof fn lemma_delta_bounds(ks: Seq<u64>, i: int, j: int)
    ensures
        -1 <= delta(ks, i, j) <= 64,
{
    if 0 <= i < ks.len() && 0 <= j < ks.len() {
        axiom_u64_leading_zeros(ks[i] ^ ks[j]);
    }
}

/// A node's range reaches at least one step in its direction.
pub proof fn lemma_karras_first_step(ks: Seq<u64>, i: int)
    requires
        strictly_increasing(ks),
        0 <= i < ks.len() - 1,
    ensures
        delta(ks, i, i + karras_dir(ks, i)) > karras_floor(ks, i),
{
    lemma_delta_basics(ks, i, i + 1);
    if i > 0 {
        lemma_delta_basics(ks, i, i - 1);
        lemma_delta_triangle(ks, i - 1, i, i + 1);
    }
}


/// Both halves of a split range share a longer prefix than the whole range.
pub proof fn lemma_split_deepens(ks: Seq<u64>, f: int, s: int, l: int)
    requires
        strictly_increasing(ks),
        l < ks.len(),
        is_karras_split(ks, f, s, l),
    ensures
        s > f ==> delta(ks, f, s) > delta(ks, f, l),
        s + 1 < l ==> delta(ks, s + 1, l) > delta(ks, f, l),
{
    lemma_delta_basics(ks, f, l);
    if s + 1 < l {
        if f < s {
            lemma_delta_triangle(ks, f, s, s + 1);
            lemma_delta_triangle(ks, f, s, l);
        } else {
            lemma_delta_basics(ks, f, f);
        }
        lemma_delta_triangle(ks, s, s + 1, l);
    }
}

/// Keys below 2^62 share at least their two top bits.
pub proof fn lemma_delta_top_bits(ks: Seq<u64>, i: int, j: int)
    requires
        0 <= i < ks.len(),
        0 <= j < ks.len(),
        ks[i] < 0x4000_0000_0000_0000,
        ks[j] < 0x4000_0000_0000_0000,
    ensures
        delta(ks, i, j) >= 2,
{
    let a = ks[i];
    let b = ks[j];
    let x = a ^ b;
    axiom_u64_leading_zeros(x);
    assert(x < 0x4000_0000_0000_0000) by (bit_vector)
        requires
            x == a ^ b,
            a < 0x4000_0000_0000_0000,
            b < 0x4000_0000_0000_0000,
    ;
    let z = u64_leading_zeros(x);
    if z < 2 {
        let k: u64 = (63 - z) as u64;
        assert((x >> k) & 1 != 0);
        assert(k >= 62 && (x >> k) & 1 != 0 ==> x >= 0x4000_0000_0000_0000) by (bit_vector);
    }
}

} // verus!
