use vstd::prelude::*;

verus! {

use vstd::arithmetic::power2::{pow2, lemma_pow2_pos, lemma_pow2_adds, lemma2_to64};
use vstd::arithmetic::div_mod::lemma_mod_breakdown;
use vstd::bits::lemma_u64_shr_is_div;
use vstd::set_lib::{set_int_range, lemma_int_range, lemma_map_size, lemma_subset_equality};
use vstd::relations::injective_on;
use crate::par::par_map_indices;

/// Number of bits that one counting pass sorts by.
pub const BUCKET_BITS: u64 = 6;

/// Number of buckets of one counting pass.
pub const N_BUCKETS: usize = 64;

/// `(a, i)` comes strictly before `(b, j)` in lexicographic order.
pub open spec fn lex_lt(a: int, i: int, b: int, j: int) -> bool {
    a < b || (a == b && i < j)
}

/// `pi` places every element of `inp` in `out`: it sends index `i` of `inp` to an
/// index of `out` that holds the same element, and it keeps the order of the pairs
/// `(keys[i], i)`: an element with a smaller key, or with an equal key and a smaller
/// index, lands at a smaller index.
pub open spec fn is_stable_placement<F>(out: Seq<F>, inp: Seq<F>, keys: Seq<int>, pi: spec_fn(int) -> int) -> bool {
    &&& forall|i: int| 0 <= i < inp.len() ==> 0 <= #[trigger] pi(i) < inp.len() && out[pi(i)] == inp[i]
    &&& forall|i: int, j: int|
        #![trigger pi(i), pi(j)]
        0 <= i < inp.len() && 0 <= j < inp.len() && lex_lt(keys[i], i, keys[j], j) ==> pi(i) < pi(j)
}

/// `out` is `inp` sorted stably by `keys`, where `keys[i]` is the key of `inp[i]`.
pub open spec fn is_stable_sort<F>(out: Seq<F>, inp: Seq<F>, keys: Seq<int>) -> bool {
    &&& out.len() == inp.len()
    &&& keys.len() == inp.len()
    &&& exists|pi: spec_fn(int) -> int| is_stable_placement(out, inp, keys, pi)
}

/// The key function can be called on every element.
pub open spec fn key_is_total<F, N: Fn(&F) -> usize>(f: N) -> bool {
    forall|x: &F| #[trigger] call_requires(f, (x,))
}

/// The key function gives one key per element.
pub open spec fn key_is_deterministic<F, N: Fn(&F) -> usize>(f: N) -> bool {
    forall|x: &F, a: usize, b: usize|
        #![trigger call_ensures(f, (x,), a), call_ensures(f, (x,), b)]
        call_ensures(f, (x,), a) && call_ensures(f, (x,), b) ==> a == b
}

/// Number of counting passes for keys of `bits` bits.
pub open spec fn radix_passes(bits: nat) -> nat {
    (bits + 5) / 6
}

/// The keys `keys`, each truncated to its low `6 * passes` bits.
pub open spec fn low_keys(keys: Seq<usize>, passes: nat) -> Seq<int> {
    Seq::new(keys.len(), |i: int| keys[i] as int % (pow2(6 * passes) as int))
}

/// The keys `keys`, each truncated to the bits that a sort for `bits`-bit keys
/// orders by: the low `6 * radix_passes(bits)` bits.
pub open spec fn truncated_keys(keys: Seq<usize>, bits: nat) -> Seq<int> {
    low_keys(keys, radix_passes(bits))
}

/// Bucket of key `k` in the counting pass that reads the 6 bits from `shift` on.
pub open spec fn digit(k: int, shift: nat) -> int {
    (k / (pow2(shift) as int)) % 64
}

/// The buckets of `keys` in the counting pass that reads the 6 bits from `shift` on.
pub open spec fn digits(keys: Seq<usize>, shift: nat) -> Seq<int> {
    Seq::new(keys.len(), |i: int| digit(keys[i] as int, shift))
}

/// Number of indices `t < m` with `ds[t] < v`.
pub open spec fn count_lt(ds: Seq<int>, m: nat, v: int) -> nat
    decreases m,
{
    if m == 0 {
        0
    } else {
        count_lt(ds, (m - 1) as nat, v) + if ds[m - 1] < v { 1nat } else { 0nat }
    }
}

/// Number of indices `t < m` with `ds[t] == v`.
pub open spec fn count_eq(ds: Seq<int>, m: nat, v: int) -> nat
    decreases m,
{
    if m == 0 {
        0
    } else {
        count_eq(ds, (m - 1) as nat, v) + if ds[m - 1] == v { 1nat } else { 0nat }
    }
}

/// Where a stable counting sort by bucket `ds` puts the element at index `a`:
/// after every element of a smaller bucket and every earlier element of its bucket.
pub open spec fn slot(ds: Seq<int>, a: int) -> int {
    (count_lt(ds, ds.len(), ds[a]) + count_eq(ds, a as nat, ds[a])) as int
}

proof fn lemma_count_prefix(ds1: Seq<int>, ds2: Seq<int>, m: nat, v: int)
    requires
        m <= ds1.len(),
        m <= ds2.len(),
        forall|t: int| 0 <= t < m ==> ds1[t] == ds2[t],
    ensures
        count_lt(ds1, m, v) == count_lt(ds2, m, v),
        count_eq(ds1, m, v) == count_eq(ds2, m, v),
    decreases m,
{
    if m > 0 {
        lemma_count_prefix(ds1, ds2, (m - 1) as nat, v);
    }
}

proof fn lemma_count_lt_step(ds: Seq<int>, m: nat, v: int)
    requires
        m <= ds.len(),
    ensures
        count_lt(ds, m, v + 1) == count_lt(ds, m, v) + count_eq(ds, m, v),
    decreases m,
{
    if m > 0 {
        lemma_count_lt_step(ds, (m - 1) as nat, v);
    }
}

proof fn lemma_count_lt_mono(ds: Seq<int>, m: nat, v: int, w: int)
    requires
        m <= ds.len(),
        v <= w,
    ensures
        count_lt(ds, m, v) <= count_lt(ds, m, w),
    decreases m,
{
    if m > 0 {
        lemma_count_lt_mono(ds, (m - 1) as nat, v, w);
    }
}

proof fn lemma_count_lt_bound(ds: Seq<int>, m: nat, v: int)
    requires
        m <= ds.len(),
    ensures
        count_lt(ds, m, v) <= m,
        count_eq(ds, m, v) <= m,
    decreases m,
{
    if m > 0 {
        lemma_count_lt_bound(ds, (m - 1) as nat, v);
    }
}

proof fn lemma_count_lt_zero(ds: Seq<int>, m: nat)
    requires
        m <= ds.len(),
        forall|t: int| 0 <= t < m ==> 0 <= ds[t],
    ensures
        count_lt(ds, m, 0) == 0,
    decreases m,
{
    if m > 0 {
        lemma_count_lt_zero(ds, (m - 1) as nat);
    }
}

proof fn lemma_count_eq_mono(ds: Seq<int>, m1: nat, m2: nat, v: int)
    requires
        m1 <= m2 <= ds.len(),
    ensures
        count_eq(ds, m1, v) <= count_eq(ds, m2, v),
    decreases m2,
{
    if m1 < m2 {
        lemma_count_eq_mono(ds, m1, (m2 - 1) as nat, v);
    }
}

/// Slots lie in `[0, len)` and keep the order of `(bucket, index)`.
proof fn lemma_slot(ds: Seq<int>, a: int, b: int)
    requires
        0 <= a < ds.len(),
        0 <= b < ds.len(),
    ensures
        0 <= slot(ds, a) < ds.len(),
        lex_lt(ds[a], a, ds[b], b) ==> slot(ds, a) < slot(ds, b),
{
    let n = ds.len();
    let va = ds[a];
    let vb = ds[b];
    lemma_count_lt_step(ds, n, va);
    lemma_count_eq_mono(ds, (a + 1) as nat, n, va);
    assert(count_eq(ds, (a + 1) as nat, va) == count_eq(ds, a as nat, va) + 1);
    lemma_count_lt_bound(ds, n, va + 1);
    if va < vb {
        lemma_count_lt_mono(ds, n, va + 1, vb);
    } else if va == vb && a < b {
        lemma_count_eq_mono(ds, (a + 1) as nat, b as nat, va);
    }
}


/// The bucket of key `k` in the pass that reads the 6 bits from `shift` on.
fn bucket_of(k: usize, shift: u64) -> (d: usize)
    requires
        shift < 64,
    ensures
        d < N_BUCKETS,
        d as int == digit(k as int, shift as nat),
{
    let x = (k as u64) >> shift;
    proof {
        lemma_u64_shr_is_div(k as u64, shift);
        lemma_pow2_pos(shift as nat);
        assert(x & 63 == x % 64) by (bit_vector);
    }
    (x & 63) as usize
}

/// One pass of a stable counting sort of `source` into `dest`, by the 6 key bits
/// from `shift` on. Returns the key of each element of `source`.
fn counting_pass<F: Copy, N: Fn(&F) -> usize>(
    source: &Vec<F>,
    dest: &mut Vec<F>,
    shift: u64,
    f: &N,
) -> (ks: Ghost<Seq<usize>>)
    requires
        old(dest).len() == source.len(),
        shift < 64,
        key_is_total::<F, N>(*f),
        key_is_deterministic::<F, N>(*f),
    ensures
        final(dest).len() == source.len(),
        ks@.len() == source.len(),
        forall|a: int| 0 <= a < source.len() ==> call_ensures(*f, (&source@[a],), #[trigger] ks@[a]),
        forall|a: int|
            0 <= a < source.len() ==> final(dest)@[#[trigger] slot(digits(ks@, shift as nat), a)]
                == source@[a],
{
    let n = source.len();
    let mut frequency: Vec<usize> = Vec::new();
    for _b in 0..N_BUCKETS
        invariant
            frequency.len() == _b,
            forall|c: int| 0 <= c < frequency.len() ==> frequency@[c] == 0,
    {
        frequency.push(0);
    }
    let ghost mut ks: Seq<usize> = Seq::empty();
    for a in 0..n
        invariant
            n == source.len(),
            shift < 64,
            key_is_total::<F, N>(*f),
            frequency.len() == N_BUCKETS,
            ks.len() == a,
            forall|t: int| 0 <= t < a ==> call_ensures(*f, (&source@[t],), #[trigger] ks[t]),
            forall|c: int| 0 <= c < N_BUCKETS ==> #[trigger] frequency@[c] == count_eq(digits(ks, shift as nat), a as nat, c),
    {
        let k = f(&source[a]);
        let d = bucket_of(k, shift);
        let ghost old_ks = ks;
        proof {
            ks = ks.push(k);
            assert forall|c: int| 0 <= c < N_BUCKETS implies count_eq(digits(ks, shift as nat), a as nat, c)
                == count_eq(digits(old_ks, shift as nat), a as nat, c) by {
                lemma_count_prefix(digits(ks, shift as nat), digits(old_ks, shift as nat), a as nat, c);
            }
            lemma_count_lt_bound(digits(old_ks, shift as nat), a as nat, d as int);
        }
        let c = frequency[d];
        frequency.set(d, c + 1);
    }
    let ghost ds = digits(ks, shift as nat);
    let mut start: usize = 0;
    proof {
        lemma_count_lt_zero(ds, n as nat);
    }
    for b in 0..N_BUCKETS
        invariant
            n == source.len(),
            ds.len() == n,
            frequency.len() == N_BUCKETS,
            start as int == count_lt(ds, n as nat, b as int),
            forall|c: int| 0 <= c < b ==> #[trigger] frequency@[c] == count_lt(ds, n as nat, c),
            forall|c: int| b <= c < N_BUCKETS ==> #[trigger] frequency@[c] == count_eq(ds, n as nat, c),
    {
        let count = frequency[b];
        proof {
            lemma_count_lt_step(ds, n as nat, b as int);
            lemma_count_lt_bound(ds, n as nat, b + 1);
        }
        frequency.set(b, start);
        start = start + count;
    }
    for a in 0..n
        invariant
            n == source.len(),
            ds == digits(ks, shift as nat),
            ds.len() == n,
            ks.len() == n,
            shift < 64,
            key_is_total::<F, N>(*f),
            key_is_deterministic::<F, N>(*f),
            forall|t: int| 0 <= t < n ==> call_ensures(*f, (&source@[t],), #[trigger] ks[t]),
            dest.len() == n,
            frequency.len() == N_BUCKETS,
            forall|c: int| 0 <= c < N_BUCKETS ==> #[trigger] frequency@[c] == count_lt(ds, n as nat, c) + count_eq(ds, a as nat, c),
            forall|t: int| 0 <= t < a ==> dest@[#[trigger] slot(ds, t)] == source@[t],
    {
        let k = f(&source[a]);
        let d = bucket_of(k, shift);
        proof {
            assert(call_ensures(*f, (&source@[a as int],), ks[a as int]));
            assert(k == ks[a as int]);
            lemma_slot(ds, a as int, a as int);
            assert forall|t: int| 0 <= t < a implies slot(ds, t) != slot(ds, a as int) by {
                lemma_slot(ds, t, a as int);
                lemma_slot(ds, a as int, t);
            }
        }
        let idx = frequency[d];
        assert(idx == slot(ds, a as int));
        let ghost old_dest = dest@;
        dest.set(idx, source[a]);
        frequency.set(d, idx + 1);
        proof {
            assert forall|t: int| 0 <= t < a + 1 implies dest@[#[trigger] slot(ds, t)] == source@[t] by {
                if t < a {
                    lemma_slot(ds, t, a as int);
                    lemma_slot(ds, a as int, t);
                    assert(old_dest[slot(ds, t)] == source@[t]);
                }
            }
        }
    }
    Ghost(ks)
}


proof fn lemma_key_split(k: int, p: nat)
    requires
        k >= 0,
    ensures
        k % (pow2(6 * (p + 1)) as int) == digit(k, 6 * p) * (pow2(6 * p) as int) + k % (pow2(6 * p) as int),
        0 <= k % (pow2(6 * p) as int) < pow2(6 * p),
        0 <= digit(k, 6 * p) < 64,
{
    let m = pow2(6 * p) as int;
    lemma_pow2_pos(6 * p);
    lemma_pow2_adds(6 * p, 6);
    lemma2_to64();
    assert(6 * (p + 1) == 6 * p + 6) by (nonlinear_arith);
    lemma_mod_breakdown(k, m, 64);
    assert(m * ((k / m) % 64) == ((k / m) % 64) * m) by (nonlinear_arith);
}

proof fn lemma_lex_split(di: int, ti: int, i: int, dj: int, tj: int, j: int, m: int)
    requires
        m > 0,
        0 <= ti < m,
        0 <= tj < m,
        lex_lt(di * m + ti, i, dj * m + tj, j),
    ensures
        di < dj || (di == dj && lex_lt(ti, i, tj, j)),
{
    if di > dj {
        assert(di * m >= dj * m + m) by (nonlinear_arith)
            requires
                di > dj,
                m > 0,
        ;
    } else if di == dj {
    }
}

/// One counting pass by the 6 bits from `6 * p` on extends a stable sort by the low
/// `6 * p` bits to one by the low `6 * (p + 1)` bits. Gives the keys of the input
/// (learnt in the first pass) and the new placement.
proof fn lemma_pass_step<F, N: Fn(&F) -> usize>(
    f: N,
    inp: Seq<F>,
    source: Seq<F>,
    destination: Seq<F>,
    keys: Seq<usize>,
    pi: spec_fn(int) -> int,
    ks: Seq<usize>,
    p: nat,
) -> (r: (Seq<usize>, spec_fn(int) -> int))
    requires
        source.len() == inp.len(),
        destination.len() == inp.len(),
        keys.len() == inp.len(),
        key_is_deterministic::<F, N>(f),
        p > 0 ==> forall|i: int| 0 <= i < inp.len() ==> call_ensures(f, (&inp[i],), #[trigger] keys[i]),
        is_stable_placement(source, inp, low_keys(keys, p), pi),
        p == 0 ==> source == inp,
        p == 0 ==> forall|i: int| #[trigger] pi(i) == i,
        ks.len() == source.len(),
        forall|a: int| 0 <= a < source.len() ==> call_ensures(f, (&source[a],), #[trigger] ks[a]),
        forall|a: int| 0 <= a < source.len() ==> destination[#[trigger] slot(digits(ks, 6 * p), a)] == source[a],
    ensures
        r.0.len() == inp.len(),
        forall|i: int| 0 <= i < inp.len() ==> call_ensures(f, (&inp[i],), #[trigger] r.0[i]),
        is_stable_placement(destination, inp, low_keys(r.0, p + 1), r.1),
{
    let n = inp.len();
    let ds = digits(ks, 6 * p);
    let mut keys = keys;
    if p == 0 {
        let old_keys = keys;
        keys = ks;
        lemma2_to64();
        assert(low_keys(keys, 0) =~= low_keys(old_keys, 0));
        assert forall|i: int| 0 <= i < n implies call_ensures(f, (&inp[i],), #[trigger] keys[i]) by {
            assert(call_ensures(f, (&source[i],), ks[i]));
        }
    }
    assert forall|i: int| 0 <= i < n implies #[trigger] ks[pi(i)] == keys[i] by {
        assert(call_ensures(f, (&source[pi(i)],), ks[pi(i)]));
        assert(source[pi(i)] == inp[i]);
        assert(call_ensures(f, (&inp[i],), keys[i]));
    }
    let m = pow2(6 * p) as int;
    let new_pi = |i: int| slot(ds, pi(i));
    assert forall|i: int| 0 <= i < n implies 0 <= #[trigger] new_pi(i) < n && destination[new_pi(i)] == inp[i] by {
        lemma_slot(ds, pi(i), pi(i));
    }
    assert forall|i: int, j: int|
        0 <= i < n && 0 <= j < n && lex_lt(low_keys(keys, p + 1)[i], i, low_keys(keys, p + 1)[j], j)
        implies #[trigger] new_pi(i) < #[trigger] new_pi(j) by {
        lemma_key_split(keys[i] as int, p);
        lemma_key_split(keys[j] as int, p);
        let di = digit(keys[i] as int, 6 * p);
        let dj = digit(keys[j] as int, 6 * p);
        let ti = keys[i] as int % m;
        let tj = keys[j] as int % m;
        lemma_lex_split(di, ti, i, dj, tj, j, m);
        assert(ds[pi(i)] == di);
        assert(ds[pi(j)] == dj);
        if di == dj {
            assert(low_keys(keys, p)[i] == ti);
            assert(low_keys(keys, p)[j] == tj);
            assert(lex_lt(low_keys(keys, p)[i], i, low_keys(keys, p)[j], j));
            assert(pi(i) < pi(j));
        }
        lemma_slot(ds, pi(i), pi(j));
    }
    assert(is_stable_placement(destination, inp, low_keys(keys, p + 1), new_pi));
    (keys, new_pi)
}


/// Two copies of `slice`: the source and the destination of the first pass.
fn working_copies<F: Copy>(slice: &Vec<F>) -> (r: (Vec<F>, Vec<F>))
    ensures
        r.0@ == slice@,
        r.1@ == slice@,
{
    let n = slice.len();
    let mut source: Vec<F> = Vec::new();
    let mut destination: Vec<F> = Vec::new();
    for i in 0..n
        invariant
            n == slice.len(),
            source.len() == i,
            destination.len() == i,
            forall|t: int| 0 <= t < i ==> source@[t] == slice@[t] && destination@[t] == slice@[t],
    {
        source.push(slice[i]);
        destination.push(slice[i]);
    }
    assert(source@ =~= slice@);
    assert(destination@ =~= slice@);
    (source, destination)
}

/// Sorts `slice` stably by the low bits of the key that `f` gives each element, with
/// a least-significant-digit radix sort of 6 bits per pass: `(bits + 5) / 6` passes,
/// which order the elements by the low `6 * ((bits + 5) / 6)` bits of their keys.
pub fn radix_sort_by_key<F: Copy, N: Fn(&F) -> usize>(slice: &mut Vec<F>, bits: usize, f: N)
    requires
        old(slice)@.len() > 1 ==> bits <= 66,
        key_is_total::<F, N>(f),
        key_is_deterministic::<F, N>(f),
    ensures
        exists|keys: Seq<usize>|
            {
                &&& keys.len() == old(slice)@.len()
                &&& old(slice)@.len() > 1 && bits > 0 ==> forall|i: int|
                    0 <= i < keys.len() ==> call_ensures(f, (&old(slice)@[i],), #[trigger] keys[i])
                &&& is_stable_sort(final(slice)@, old(slice)@, truncated_keys(keys, bits as nat))
            },
{
    let ghost inp = slice@;
    let n = slice.len();
    if n <= 1 {
        proof {
            let keys = Seq::new(n as nat, |i: int| 0usize);
            let id = |i: int| i;
            assert(is_stable_placement(slice@, inp, truncated_keys(keys, bits as nat), id));
        }
        return;
    }
    let passes = (bits + 5) / 6;
    let (mut source, mut destination) = working_copies(slice);
    let ghost mut keys: Seq<usize> = Seq::new(n as nat, |i: int| 0usize);
    let ghost mut pi: spec_fn(int) -> int = |i: int| i;
    proof {
        lemma2_to64();
        assert(source@ == inp);
    }
    let mut shift: u64 = 0;
    let mut p: usize = 0;
    while p < passes
        invariant
            n == inp.len(),
            n > 1,
            source.len() == n,
            destination.len() == n,
            passes == radix_passes(bits as nat),
            passes <= 11,
            p <= passes,
            shift == 6 * p,
            keys.len() == n,
            key_is_total::<F, N>(f),
            key_is_deterministic::<F, N>(f),
            p > 0 ==> forall|i: int| 0 <= i < n ==> call_ensures(f, (&inp[i],), #[trigger] keys[i]),
            is_stable_placement(source@, inp, low_keys(keys, p as nat), pi),
            p == 0 ==> source@ == inp,
            p == 0 ==> forall|i: int| #[trigger] pi(i) == i,
        decreases passes - p,
    {
        let ks = counting_pass(&source, &mut destination, shift, &f);
        proof {
            let (k2, pi2) = lemma_pass_step(f, inp, source@, destination@, keys, pi, ks@, p as nat);
            keys = k2;
            pi = pi2;
        }
        std::mem::swap(&mut source, &mut destination);
        shift = shift + 6;
        p = p + 1;
    }
    *slice = source;
    proof {
        assert(is_stable_placement(slice@, inp, truncated_keys(keys, bits as nat), pi));
    }
}


/// A placement is injective: distinct input indices land at distinct output indices.
proof fn lemma_placement_injective<F>(out: Seq<F>, inp: Seq<F>, keys: Seq<int>, pi: spec_fn(int) -> int, i: int, j: int)
    requires
        is_stable_placement(out, inp, keys, pi),
        0 <= i < inp.len(),
        0 <= j < inp.len(),
        i != j,
    ensures
        pi(i) != pi(j),
{
    if lex_lt(keys[i], i, keys[j], j) {
        assert(pi(i) < pi(j));
    } else {
        assert(lex_lt(keys[j], j, keys[i], i));
        assert(pi(j) < pi(i));
    }
}

/// A placement is onto: every output index receives an input element.
proof fn lemma_placement_onto<F>(out: Seq<F>, inp: Seq<F>, keys: Seq<int>, pi: spec_fn(int) -> int, q: int)
    requires
        is_stable_placement(out, inp, keys, pi),
        0 <= q < inp.len(),
    ensures
        exists|i: int| 0 <= i < inp.len() && #[trigger] pi(i) == q,
{
    let n = inp.len() as int;
    let dom = set_int_range(0, n);
    let img = dom.map(pi);
    lemma_int_range(0, n);
    assert forall|a: int, b: int| dom.contains(a) && dom.contains(b) && #[trigger] pi(a) == #[trigger] pi(b) implies a == b by {
        if a != b {
            lemma_placement_injective(out, inp, keys, pi, a, b);
        }
    }
    assert(injective_on(pi, dom));
    lemma_map_size(dom, img, pi);
    assert forall|x: int| img.contains(x) implies dom.contains(x) by {
        let a = choose|a: int| dom.contains(a) && pi(a) == x;
        assert(0 <= pi(a) < n);
    }
    lemma_subset_equality(img, dom);
    assert(img.contains(q));
}

/// A stable sort puts its elements in non-decreasing order of key.
pub proof fn lemma_stable_sort_is_sorted<F>(out: Seq<F>, inp: Seq<F>, keys: Seq<int>, key: spec_fn(F) -> int)
    requires
        is_stable_sort(out, inp, keys),
        forall|i: int| 0 <= i < inp.len() ==> keys[i] == key(#[trigger] inp[i]),
    ensures
        forall|p: int, q: int| 0 <= p < q < out.len() ==> key(#[trigger] out[p]) <= key(#[trigger] out[q]),
{
    let pi = choose|pi: spec_fn(int) -> int| is_stable_placement(out, inp, keys, pi);
    assert forall|p: int, q: int| 0 <= p < q < out.len() implies key(#[trigger] out[p]) <= key(#[trigger] out[q]) by {
        lemma_placement_onto(out, inp, keys, pi, p);
        lemma_placement_onto(out, inp, keys, pi, q);
        let i = choose|i: int| 0 <= i < inp.len() && #[trigger] pi(i) == p;
        let j = choose|j: int| 0 <= j < inp.len() && #[trigger] pi(j) == q;
        if key(out[p]) > key(out[q]) {
            assert(keys[j] < keys[i]);
            assert(lex_lt(keys[j], j, keys[i], i));
            assert(pi(j) < pi(i));
        }
    }
}

proof fn lemma_injective_to_multiset<F>(a: Seq<F>, b: Seq<F>, pi: spec_fn(int) -> int)
    requires
        a.len() == b.len(),
        forall|i: int| 0 <= i < a.len() ==> 0 <= #[trigger] pi(i) < a.len() && b[pi(i)] == a[i],
        forall|i: int, j: int| 0 <= i < a.len() && 0 <= j < a.len() && i != j ==> #[trigger] pi(i) != #[trigger] pi(j),
    ensures
        a.to_multiset() == b.to_multiset(),
    decreases a.len(),
{
    broadcast use vstd::seq_lib::to_multiset_remove, vstd::seq_lib::to_multiset_len, vstd::seq_lib::to_multiset_contains;
    let n = a.len() as int;
    if n == 0 {
        assert(a.to_multiset().len() == 0);
        assert(b.to_multiset().len() == 0);
        assert(a.to_multiset() =~= b.to_multiset());
    } else {
        let last = n - 1;
        let r = pi(last);
        let a2 = a.remove(last);
        let b2 = b.remove(r);
        let pi2 = |i: int| if pi(i) > r { pi(i) - 1 } else { pi(i) };
        assert forall|i: int| 0 <= i < a2.len() implies 0 <= #[trigger] pi2(i) < a2.len() && b2[pi2(i)] == a2[i] by {
            assert(pi(i) != r);
        }
        assert forall|i: int, j: int| 0 <= i < a2.len() && 0 <= j < a2.len() && i != j implies #[trigger] pi2(i) != #[trigger] pi2(j) by {
            assert(pi(i) != pi(j));
            assert(pi(i) != r);
            assert(pi(j) != r);
        }
        lemma_injective_to_multiset(a2, b2, pi2);
        assert(a2.to_multiset() == a.to_multiset().remove(a[last]));
        assert(b2.to_multiset() == b.to_multiset().remove(b[r]));
        assert(a.contains(a[last]));
        assert(b.contains(b[r]));
        assert(a.to_multiset().count(a[last]) > 0);
        assert(b.to_multiset().count(b[r]) > 0);
        assert(a.to_multiset() =~= a2.to_multiset().insert(a[last]));
        assert(b.to_multiset() =~= b2.to_multiset().insert(b[r]));
    }
}

/// A stable sort rearranges its input: the same elements, each as often.
pub proof fn lemma_stable_sort_is_permutation<F>(out: Seq<F>, inp: Seq<F>, keys: Seq<int>)
    requires
        is_stable_sort(out, inp, keys),
    ensures
        out.to_multiset() == inp.to_multiset(),
{
    let pi = choose|pi: spec_fn(int) -> int| is_stable_placement(out, inp, keys, pi);
    assert forall|i: int, j: int| 0 <= i < inp.len() && 0 <= j < inp.len() && i != j implies #[trigger] pi(i) != #[trigger] pi(j) by {
        lemma_placement_injective(out, inp, keys, pi, i, j);
    }
    lemma_injective_to_multiset(inp, out, pi);
}

proof fn lemma_increasing_ge(g: spec_fn(int) -> int, n: int, q: int)
    requires
        0 <= q < n,
        forall|a: int| 0 <= a < n ==> 0 <= #[trigger] g(a),
        forall|a: int, b: int| 0 <= a < b < n ==> #[trigger] g(a) < #[trigger] g(b),
    ensures
        g(q) >= q,
    decreases q,
{
    if q > 0 {
        lemma_increasing_ge(g, n, q - 1);
        assert(g(q - 1) < g(q));
    }
}

/// `pi1(i) <= pi2(i)` for two placements of the same input under the same keys.
proof fn lemma_placements_le<F>(o1: Seq<F>, o2: Seq<F>, inp: Seq<F>, keys: Seq<int>, pi1: spec_fn(int) -> int, pi2: spec_fn(int) -> int, i: int)
    requires
        is_stable_placement(o1, inp, keys, pi1),
        is_stable_placement(o2, inp, keys, pi2),
        0 <= i < inp.len(),
    ensures
        pi1(i) <= pi2(i),
{
    let n = inp.len() as int;
    let inv = |q: int| choose|k: int| 0 <= k < n && #[trigger] pi1(k) == q;
    let g = |q: int| pi2(inv(q));
    assert forall|q: int| 0 <= q < n implies 0 <= inv(q) < n && pi1(#[trigger] inv(q)) == q by {
        lemma_placement_onto(o1, inp, keys, pi1, q);
    }
    assert forall|a: int| 0 <= a < n implies 0 <= #[trigger] g(a) by {
        assert(0 <= inv(a) < n);
    }
    assert forall|a: int, b: int| 0 <= a < b < n implies #[trigger] g(a) < #[trigger] g(b) by {
        let ia = inv(a);
        let ib = inv(b);
        assert(pi1(ia) == a && pi1(ib) == b);
        if lex_lt(keys[ib], ib, keys[ia], ia) {
            assert(pi1(ib) < pi1(ia));
        } else {
            assert(ia != ib);
            assert(lex_lt(keys[ia], ia, keys[ib], ib));
            assert(pi2(ia) < pi2(ib));
        }
    }
    let q = pi1(i);
    lemma_increasing_ge(g, n, q);
    assert(inv(q) == i) by {
        let k = inv(q);
        assert(pi1(k) == q);
        if k != i {
            lemma_placement_injective(o1, inp, keys, pi1, k, i);
        }
    }
}

/// The stable sort of a sequence by given keys is unique.
pub proof fn lemma_stable_sort_unique<F>(o1: Seq<F>, o2: Seq<F>, inp: Seq<F>, keys: Seq<int>)
    requires
        is_stable_sort(o1, inp, keys),
        is_stable_sort(o2, inp, keys),
    ensures
        o1 == o2,
{
    let pi1 = choose|pi: spec_fn(int) -> int| is_stable_placement(o1, inp, keys, pi);
    let pi2 = choose|pi: spec_fn(int) -> int| is_stable_placement(o2, inp, keys, pi);
    assert forall|q: int| 0 <= q < o1.len() implies o1[q] == o2[q] by {
        lemma_placement_onto(o1, inp, keys, pi1, q);
        let i = choose|i: int| 0 <= i < inp.len() && #[trigger] pi1(i) == q;
        lemma_placements_le(o1, o2, inp, keys, pi1, pi2, i);
        lemma_placements_le(o2, o1, inp, keys, pi2, pi1, i);
    }
    assert(o1 =~= o2);
}


/// Sorting in place by radix sort.
pub trait RadixSorter {
    /// Sorts stably by a key of the elements, one counting pass after another.
    fn radix_sort(&mut self);

    /// Sorts as `radix_sort` does, with the counting spread over threads.
    fn par_radix_sort(&mut self);
}

/// With at most one element, a stable sort under any keys is a stable sort under
/// all keys.
pub proof fn lemma_stable_sort_small<F>(out: Seq<F>, inp: Seq<F>, k1: Seq<int>, k2: Seq<int>)
    requires
        is_stable_sort(out, inp, k1),
        inp.len() <= 1,
        k2.len() == inp.len(),
    ensures
        is_stable_sort(out, inp, k2),
{
    let pi = choose|pi: spec_fn(int) -> int| is_stable_placement(out, inp, k1, pi);
    assert(is_stable_placement(out, inp, k2, pi));
}


/// In a stable sort, of two output positions the earlier holds the element that
/// comes first in the order of (key, input index).
pub proof fn lemma_stable_sort_order<F>(out: Seq<F>, inp: Seq<F>, keys: Seq<int>, t: int, u: int)
    requires
        is_stable_sort(out, inp, keys),
        0 <= t < u < out.len(),
    ensures
        exists|i: int, j: int|
            0 <= i < inp.len() && 0 <= j < inp.len() && out[t] == #[trigger] inp[i] && out[u] == #[trigger] inp[j]
                && lex_lt(keys[i], i, keys[j], j),
{
    let pi = choose|pi: spec_fn(int) -> int| is_stable_placement(out, inp, keys, pi);
    lemma_placement_onto(out, inp, keys, pi, t);
    lemma_placement_onto(out, inp, keys, pi, u);
    let i = choose|i: int| 0 <= i < inp.len() && #[trigger] pi(i) == t;
    let j = choose|j: int| 0 <= j < inp.len() && #[trigger] pi(j) == u;
    if !lex_lt(keys[i], i, keys[j], j) {
        assert(i != j);
        assert(lex_lt(keys[j], j, keys[i], i));
        assert(pi(j) < pi(i));
    }
    assert(out[t] == inp[i] && out[u] == inp[j]);
}

/// Every element of a stable sort's output is an element of its input.
pub proof fn lemma_stable_sort_origin<F>(out: Seq<F>, inp: Seq<F>, keys: Seq<int>, t: int)
    requires
        is_stable_sort(out, inp, keys),
        0 <= t < out.len(),
    ensures
        exists|i: int| 0 <= i < inp.len() && out[t] == #[trigger] inp[i],
{
    let pi = choose|pi: spec_fn(int) -> int| is_stable_placement(out, inp, keys, pi);
    lemma_placement_onto(out, inp, keys, pi, t);
    let i = choose|i: int| 0 <= i < inp.len() && #[trigger] pi(i) == t;
    assert(out[t] == inp[i]);
}


/// Mapping every element through `g` commutes with a stable sort.
pub proof fn lemma_stable_sort_map<F, G>(out: Seq<F>, inp: Seq<F>, keys: Seq<int>, g: spec_fn(F) -> G)
    requires
        is_stable_sort(out, inp, keys),
    ensures
        is_stable_sort(out.map_values(g), inp.map_values(g), keys),
{
    let pi = choose|pi: spec_fn(int) -> int| is_stable_placement(out, inp, keys, pi);
    assert(is_stable_placement(out.map_values(g), inp.map_values(g), keys, pi));
}



/// The sequential and the parallel radix sort put a vector in the same order: what
/// either returns is the one stable sort of the input by the truncated keys that a
/// deterministic key function gives.
pub proof fn lemma_radix_sorts_agree<F, N: Fn(&F) -> usize>(o1: Seq<F>, o2: Seq<F>, inp: Seq<F>, k1: Seq<usize>, k2: Seq<usize>, bits: nat, f: N)
    requires
        key_is_deterministic::<F, N>(f),
        k1.len() == inp.len(),
        k2.len() == inp.len(),
        inp.len() > 1 && bits > 0 ==> forall|i: int| 0 <= i < inp.len() ==> call_ensures(f, (&inp[i],), #[trigger] k1[i]),
        inp.len() > 1 && bits > 0 ==> forall|i: int| 0 <= i < inp.len() ==> call_ensures(f, (&inp[i],), #[trigger] k2[i]),
        is_stable_sort(o1, inp, truncated_keys(k1, bits)),
        is_stable_sort(o2, inp, truncated_keys(k2, bits)),
    ensures
        o1 == o2,
{
    if inp.len() <= 1 {
        lemma_stable_sort_small(o2, inp, truncated_keys(k2, bits), truncated_keys(k1, bits));
    } else if bits == 0 {
        assert(radix_passes(0) == 0);
        assert(pow2(0) == 1) by {
            lemma2_to64();
        }
        assert(truncated_keys(k1, bits) =~= truncated_keys(k2, bits));
    } else {
        assert forall|i: int| 0 <= i < inp.len() implies k1[i] == k2[i] by {
            assert(call_ensures(f, (&inp[i],), k1[i]));
            assert(call_ensures(f, (&inp[i],), k2[i]));
        }
        assert(k1 =~= k2);
    }
    lemma_stable_sort_unique(o1, o2, inp, truncated_keys(k1, bits));
}


/// A radix sort whose key function gives exactly the keys `expected` sorts by
/// those keys.
pub proof fn lemma_sorted_by_exact_keys<F, N: Fn(&F) -> usize>(out: Seq<F>, inp: Seq<F>, f: N, expected: Seq<usize>, bits: nat)
    requires
        expected.len() == inp.len(),
        forall|i: int, r: usize| 0 <= i < inp.len() && #[trigger] call_ensures(f, (&inp[i],), r) ==> r == expected[i],
        exists|keys: Seq<usize>|
            {
                &&& keys.len() == inp.len()
                &&& inp.len() > 1 && bits > 0 ==> forall|i: int|
                    0 <= i < keys.len() ==> call_ensures(f, (&inp[i],), #[trigger] keys[i])
                &&& is_stable_sort(out, inp, truncated_keys(keys, bits))
            },
    ensures
        is_stable_sort(out, inp, truncated_keys(expected, bits)),
{
    let keys = choose|keys: Seq<usize>|
        {
            &&& keys.len() == inp.len()
            &&& inp.len() > 1 && bits > 0 ==> forall|i: int|
                0 <= i < keys.len() ==> call_ensures(f, (&inp[i],), #[trigger] keys[i])
            &&& is_stable_sort(out, inp, truncated_keys(keys, bits))
        };
    if inp.len() <= 1 {
        lemma_stable_sort_small(out, inp, truncated_keys(keys, bits), truncated_keys(expected, bits));
    } else if bits == 0 {
        assert(pow2(0) == 1) by {
            lemma2_to64();
        }
        assert(truncated_keys(keys, bits) =~= truncated_keys(expected, bits));
    } else {
        assert(keys =~= expected);
    }
}

/// Number of elements per chunk of the parallel counting.
pub const CHUNK_SIZE: usize = 8192;

/// The keys `ks` are what `f` gives for `source[lo..hi]`, and `h` counts them by
/// bucket of the pass that reads the 6 bits from `shift` on.
pub open spec fn is_chunk_histogram<R, F: Fn(&R) -> usize>(h: Seq<usize>, ks: Seq<usize>, source: Seq<R>, lo: int, hi: int, shift: nat, f: F) -> bool {
    &&& h.len() == N_BUCKETS
    &&& ks.len() == hi - lo
    &&& forall|t: int| 0 <= t < hi - lo ==> call_ensures(f, (&source[lo + t],), #[trigger] ks[t])
    &&& forall|b: int| 0 <= b < N_BUCKETS ==> #[trigger] h[b] == count_eq(digits(ks, shift), (hi - lo) as nat, b)
}

/// `is_chunk_histogram` for chunk `c` of `n` elements.
pub open spec fn is_histogram_of_chunk<R, F: Fn(&R) -> usize>(h: Seq<usize>, ks: Seq<usize>, source: Seq<R>, c: int, n: int, shift: nat, f: F) -> bool {
    is_chunk_histogram(h, ks, source, chunk_end(c, n), chunk_end(c + 1, n), shift, f)
}

/// Counts the keys of chunk `c` of `source` by bucket of the pass that reads the 6
/// bits from `shift` on.
fn chunk_histogram<R: Copy, F: Fn(&R) -> usize>(source: &Vec<R>, c: usize, shift: u64, f: &F) -> (h: Vec<usize>)
    requires
        c * CHUNK_SIZE < source.len(),
        shift < 64,
        key_is_total::<R, F>(*f),
    ensures
        exists|ks: Seq<usize>| is_histogram_of_chunk(h@, ks, source@, c as int, source.len() as int, shift as nat, *f),
{
    let n = source.len();
    let lo = c * CHUNK_SIZE;
    let hi = if n - lo > CHUNK_SIZE { lo + CHUNK_SIZE } else { n };
    proof {
        assert((c + 1) * CHUNK_SIZE == c * CHUNK_SIZE + CHUNK_SIZE) by (nonlinear_arith);
        assert(lo == chunk_end(c as int, n as int));
        assert(hi == chunk_end(c + 1, n as int));
    }
    let mut hist: Vec<usize> = Vec::new();
    for _b in 0..N_BUCKETS
        invariant
            hist.len() == _b,
            forall|b: int| 0 <= b < hist.len() ==> hist@[b] == 0,
    {
        hist.push(0);
    }
    let ghost mut ks: Seq<usize> = Seq::empty();
    for a in lo..hi
        invariant
            lo <= hi <= source.len(),
            shift < 64,
            key_is_total::<R, F>(*f),
            hist.len() == N_BUCKETS,
            ks.len() == a - lo,
            forall|t: int| 0 <= t < a - lo ==> call_ensures(*f, (&source@[lo + t],), #[trigger] ks[t]),
            forall|b: int| 0 <= b < N_BUCKETS ==> #[trigger] hist@[b] == count_eq(digits(ks, shift as nat), (a - lo) as nat, b),
    {
        let k = f(&source[a]);
        let d = bucket_of(k, shift);
        let ghost old_ks = ks;
        let ghost m: nat = (a - lo) as nat;
        proof {
            ks = ks.push(k);
            assert forall|b: int| 0 <= b < N_BUCKETS implies #[trigger] count_eq(digits(ks, shift as nat), m + 1, b)
                == count_eq(digits(old_ks, shift as nat), m, b) + if b == d { 1nat } else { 0nat } by {
                lemma_count_prefix(digits(ks, shift as nat), digits(old_ks, shift as nat), m, b);
                assert(digits(ks, shift as nat)[m as int] == d);
            }
            lemma_count_lt_bound(digits(old_ks, shift as nat), m, d as int);
        }
        let x = hist[d];
        hist.set(d, x + 1);
        proof {
            assert forall|b: int| 0 <= b < N_BUCKETS implies #[trigger] hist@[b] == count_eq(digits(ks, shift as nat), m + 1, b) by {
                assert(count_eq(digits(ks, shift as nat), m + 1, b) == count_eq(digits(old_ks, shift as nat), m, b) + if b == d { 1nat } else { 0nat });
            }
            assert forall|t: int| 0 <= t < m + 1 implies call_ensures(*f, (&source@[lo + t],), #[trigger] ks[t]) by {
                if t < m {
                    assert(ks[t] == old_ks[t]);
                }
            }
        }
    }
    proof {
        assert((c + 1) * CHUNK_SIZE == c * CHUNK_SIZE + CHUNK_SIZE) by (nonlinear_arith);
        assert(lo == chunk_end(c as int, n as int));
        assert(hi == chunk_end(c + 1, n as int));
        assert(is_chunk_histogram(hist@, ks, source@, lo as int, hi as int, shift as nat, *f));
        assert(is_histogram_of_chunk(hist@, ks, source@, c as int, n as int, shift as nat, *f));
    }
    hist
}

/// Counting the buckets of a stretch of `ds` whose buckets `cs` repeat those of
/// `ds` from `lo` on.
proof fn lemma_count_shift(cs: Seq<int>, ds: Seq<int>, lo: nat, m: nat, v: int)
    requires
        lo + m <= ds.len(),
        m <= cs.len(),
        forall|t: int| 0 <= t < m ==> cs[t] == ds[lo + t],
    ensures
        count_eq(cs, m, v) + count_eq(ds, lo, v) == count_eq(ds, lo + m, v),
    decreases m,
{
    if m > 0 {
        lemma_count_shift(cs, ds, lo, (m - 1) as nat, v);
        assert(lo + m - 1 == (lo + (m - 1) as nat));
    }
}

/// The end of chunk `c` of `n` elements.
pub open spec fn chunk_end(c: int, n: int) -> int {
    if c * (CHUNK_SIZE as int) < n {
        c * (CHUNK_SIZE as int)
    } else {
        n
    }
}

/// `hs[c]` counts the buckets `ds` of chunk `c` of `n` elements, for each of the
/// `m` chunks.
pub open spec fn chunk_counts_ok(hs: Seq<Vec<usize>>, ds: Seq<int>, n: int, m: int) -> bool {
    forall|c: int, b: int|
        0 <= c < m && 0 <= b < N_BUCKETS ==> hs[c].len() == N_BUCKETS && #[trigger] hs[c]@[b] + count_eq(ds, chunk_end(c, n) as nat, b)
            == count_eq(ds, chunk_end(c + 1, n) as nat, b)
}

/// `bases[c]` counts the buckets `ds` of the elements before chunk `c`, for each
/// of the first `m` chunks.
pub open spec fn chunk_bases_ok(bases: Seq<Vec<usize>>, ds: Seq<int>, n: int, m: int) -> bool {
    forall|c: int, b: int|
        0 <= c < m && 0 <= b < N_BUCKETS ==> bases[c].len() == N_BUCKETS && #[trigger] bases[c]@[b] == count_eq(ds, chunk_end(c, n) as nat, b)
}

/// The pass of `counting_pass`, with the buckets of each chunk of `CHUNK_SIZE`
/// elements counted in parallel; then each element goes after the elements of
/// smaller buckets and the elements of its bucket in earlier chunks and earlier in
/// its chunk.
fn par_counting_pass<R: Copy + Send + Sync, F: Fn(&R) -> usize + Sync + Send>(
    source: &Vec<R>,
    dest: &mut Vec<R>,
    shift: u64,
    f: &F,
) -> (ks: Ghost<Seq<usize>>)
    requires
        old(dest).len() == source.len(),
        shift < 64,
        key_is_total::<R, F>(*f),
        key_is_deterministic::<R, F>(*f),
    ensures
        final(dest).len() == source.len(),
        ks@.len() == source.len(),
        forall|a: int| 0 <= a < source.len() ==> call_ensures(*f, (&source@[a],), #[trigger] ks@[a]),
        forall|a: int|
            0 <= a < source.len() ==> final(dest)@[#[trigger] slot(digits(ks@, shift as nat), a)]
                == source@[a],
{
    let n = source.len();
    let num_chunks = n / CHUNK_SIZE + if n % CHUNK_SIZE == 0 { 0 } else { 1 };
    proof {
        assert(num_chunks * CHUNK_SIZE >= n) by (nonlinear_arith)
            requires
                num_chunks == n / 8192 + if n % 8192 == 0 { 0usize } else { 1usize },
        ;
        assert(num_chunks == 0 || (num_chunks - 1) * CHUNK_SIZE < n) by (nonlinear_arith)
            requires
                num_chunks == n / 8192 + if n % 8192 == 0 { 0usize } else { 1usize },
        ;
    }
    let histogram_of = |c: usize| -> (h: Vec<usize>)
        requires
            c < num_chunks,
        ensures
            exists|ks: Seq<usize>| is_histogram_of_chunk(h@, ks, source@, c as int, n as int, shift as nat, *f),
        {
            proof {
                assert(c * CHUNK_SIZE < n) by (nonlinear_arith)
                    requires
                        c < num_chunks,
                        num_chunks == 0 || (num_chunks - 1) * 8192 < n,
                ;
            }
            chunk_histogram(source, c, shift, f)
        };
    let histograms = par_map_indices(num_chunks, histogram_of);
    let ghost keys = Seq::new(n as nat, |a: int| choose|k: usize| call_ensures(*f, (&source@[a],), k));
    let ghost ds = digits(keys, shift as nat);
    proof {
        assert forall|c: int, b: int| 0 <= c < num_chunks && 0 <= b < N_BUCKETS implies
            histograms@[c].len() == N_BUCKETS &&
            #[trigger] histograms@[c]@[b] + count_eq(ds, chunk_end(c, n as int) as nat, b) == count_eq(ds, chunk_end(c + 1, n as int) as nat, b) by {
            assert(call_ensures(histogram_of, (c as usize,), histograms@[c]));
            let lo = chunk_end(c, n as int);
            let hi = chunk_end(c + 1, n as int);
            assert(lo <= hi) by (nonlinear_arith)
                requires
                    lo == chunk_end(c, n as int),
                    hi == chunk_end(c + 1, n as int),
                    c >= 0,
            ;
            let ks = choose|ks: Seq<usize>| is_histogram_of_chunk(histograms@[c]@, ks, source@, c, n as int, shift as nat, *f);
            assert forall|t: int| 0 <= t < hi - lo implies digits(ks, shift as nat)[t] == ds[lo + t] by {
                assert(call_ensures(*f, (&source@[lo + t],), ks[t]));
                assert(call_ensures(*f, (&source@[lo + t],), keys[lo + t]));
            }
            lemma_count_shift(digits(ks, shift as nat), ds, lo as nat, (hi - lo) as nat, b);
        }
    }
    proof {
        assert(chunk_end(0, n as int) == 0);
        assert(chunk_end(num_chunks as int, n as int) == n as int);
        assert forall|a: int| 0 <= a < n implies call_ensures(*f, (&source@[a],), #[trigger] keys[a]) by {
            let c = a / (CHUNK_SIZE as int);
            let lo = chunk_end(c, n as int);
            let hi = chunk_end(c + 1, n as int);
            assert(c * (CHUNK_SIZE as int) <= a < (c + 1) * (CHUNK_SIZE as int)) by (nonlinear_arith)
                requires
                    c == a / 8192,
                    a >= 0,
            ;
            assert(c < num_chunks) by (nonlinear_arith)
                requires
                    c * 8192 <= a,
                    a < n,
                    num_chunks * 8192 >= n,
                    c >= 0,
            ;
            assert(lo == c * (CHUNK_SIZE as int));
            assert(lo <= a < hi);
            assert(call_ensures(histogram_of, (c as usize,), histograms@[c]));
            let ks = choose|ks: Seq<usize>| is_histogram_of_chunk(histograms@[c]@, ks, source@, c, n as int, shift as nat, *f);
            assert(call_ensures(*f, (&source@[lo + (a - lo)],), ks[a - lo]));
        }
    }

    let mut bucket_totals: Vec<usize> = Vec::new();
    for _b in 0..N_BUCKETS
        invariant
            bucket_totals.len() == _b,
            forall|b: int| 0 <= b < bucket_totals.len() ==> bucket_totals@[b] == 0,
    {
        bucket_totals.push(0);
    }
    for c in 0..num_chunks
        invariant
            n == source.len(),
            ds.len() == n,
            histograms.len() == num_chunks,
            num_chunks * CHUNK_SIZE >= n,
            chunk_counts_ok(histograms@, ds, n as int, num_chunks as int),
            bucket_totals.len() == N_BUCKETS,
            forall|b: int| 0 <= b < N_BUCKETS ==> #[trigger] bucket_totals@[b] == count_eq(ds, chunk_end(c as int, n as int) as nat, b),
    {
        for b in 0..N_BUCKETS
            invariant
                n == source.len(),
                ds.len() == n,
                c < num_chunks,
                histograms.len() == num_chunks,
                chunk_counts_ok(histograms@, ds, n as int, num_chunks as int),
                bucket_totals.len() == N_BUCKETS,
                forall|b2: int| 0 <= b2 < b ==> #[trigger] bucket_totals@[b2] == count_eq(ds, chunk_end(c + 1, n as int) as nat, b2),
                forall|b2: int| b <= b2 < N_BUCKETS ==> #[trigger] bucket_totals@[b2] == count_eq(ds, chunk_end(c as int, n as int) as nat, b2),
        {
            proof {
                assert(histograms@[c as int]@[b as int] + count_eq(ds, chunk_end(c as int, n as int) as nat, b as int) == count_eq(ds, chunk_end(c + 1, n as int) as nat, b as int));
                lemma_count_lt_bound(ds, chunk_end(c + 1, n as int) as nat, b as int);
            }
            let t = bucket_totals[b] + histograms[c][b];
            bucket_totals.set(b, t);
        }
    }

    let mut bucket_starts: Vec<usize> = Vec::new();
    let mut acc: usize = 0;
    proof {
        lemma_count_lt_zero(ds, n as nat);
    }
    for b in 0..N_BUCKETS
        invariant
            n == source.len(),
            ds.len() == n,
            bucket_totals.len() == N_BUCKETS,
            forall|b2: int| 0 <= b2 < N_BUCKETS ==> #[trigger] bucket_totals@[b2] == count_eq(ds, n as nat, b2),
            bucket_starts.len() == b,
            acc as int == count_lt(ds, n as nat, b as int),
            forall|b2: int| 0 <= b2 < b ==> #[trigger] bucket_starts@[b2] == count_lt(ds, n as nat, b2),
    {
        proof {
            lemma_count_lt_step(ds, n as nat, b as int);
            lemma_count_lt_bound(ds, n as nat, b + 1);
        }
        bucket_starts.push(acc);
        acc = acc + bucket_totals[b];
    }

    let mut chunk_bases: Vec<Vec<usize>> = Vec::new();
    let mut running: Vec<usize> = Vec::new();
    for _b in 0..N_BUCKETS
        invariant
            running.len() == _b,
            forall|b: int| 0 <= b < running.len() ==> running@[b] == 0,
    {
        running.push(0);
    }
    for c in 0..num_chunks
        invariant
            n == source.len(),
            ds.len() == n,
            histograms.len() == num_chunks,
            num_chunks * CHUNK_SIZE >= n,
            chunk_counts_ok(histograms@, ds, n as int, num_chunks as int),
            running.len() == N_BUCKETS,
            forall|b: int| 0 <= b < N_BUCKETS ==> #[trigger] running@[b] == count_eq(ds, chunk_end(c as int, n as int) as nat, b),
            chunk_bases.len() == c,
            chunk_bases_ok(chunk_bases@, ds, n as int, c as int),
    {
        let mut base: Vec<usize> = Vec::new();
        for b in 0..N_BUCKETS
            invariant
                running.len() == N_BUCKETS,
                forall|b2: int| 0 <= b2 < N_BUCKETS ==> #[trigger] running@[b2] == count_eq(ds, chunk_end(c as int, n as int) as nat, b2),
                base.len() == b,
                forall|b2: int| 0 <= b2 < b ==> #[trigger] base@[b2] == running@[b2],
        {
            base.push(running[b]);
        }
        let ghost old_bases = chunk_bases@;
        let ghost base_v = base@;
        chunk_bases.push(base);
        proof {
            assert forall|c2: int, b: int| 0 <= c2 < c + 1 && 0 <= b < N_BUCKETS implies
                chunk_bases@[c2].len() == N_BUCKETS && #[trigger] chunk_bases@[c2]@[b] == count_eq(ds, chunk_end(c2, n as int) as nat, b) by {
                if c2 < c {
                    assert(chunk_bases@[c2] == old_bases[c2]);
                    assert(old_bases[c2]@[b] == count_eq(ds, chunk_end(c2, n as int) as nat, b));
                } else {
                    assert(chunk_bases@[c2]@ == base_v);
                    assert(base_v[b] == running@[b]);
                }
            }
            assert forall|c2: int| 0 <= c2 < c + 1 implies #[trigger] chunk_bases@[c2].len() == N_BUCKETS by {
                if c2 < c {
                    assert(old_bases[c2]@[0] == count_eq(ds, chunk_end(c2, n as int) as nat, 0));
                }
            }
            assert(chunk_bases_ok(chunk_bases@, ds, n as int, c + 1));
        }
        for b in 0..N_BUCKETS
            invariant
                n == source.len(),
                ds.len() == n,
                c < num_chunks,
                histograms.len() == num_chunks,
                chunk_counts_ok(histograms@, ds, n as int, num_chunks as int),
                running.len() == N_BUCKETS,
                chunk_bases.len() == c + 1,
                chunk_bases_ok(chunk_bases@, ds, n as int, c + 1),
                forall|b2: int| 0 <= b2 < b ==> #[trigger] running@[b2] == count_eq(ds, chunk_end(c + 1, n as int) as nat, b2),
                forall|b2: int| b <= b2 < N_BUCKETS ==> #[trigger] running@[b2] == count_eq(ds, chunk_end(c as int, n as int) as nat, b2),
        {
            proof {
                assert(histograms@[c as int]@[b as int] + count_eq(ds, chunk_end(c as int, n as int) as nat, b as int) == count_eq(ds, chunk_end(c + 1, n as int) as nat, b as int));
                lemma_count_lt_bound(ds, chunk_end(c + 1, n as int) as nat, b as int);
            }
            let t = running[b] + histograms[c][b];
            running.set(b, t);
        }
    }

    for c in 0..num_chunks
        invariant
            n == source.len(),
            ds == digits(keys, shift as nat),
            ds.len() == n,
            keys.len() == n,
            shift < 64,
            key_is_total::<R, F>(*f),
            key_is_deterministic::<R, F>(*f),
            forall|a: int| 0 <= a < n ==> call_ensures(*f, (&source@[a],), #[trigger] keys[a]),
            num_chunks * CHUNK_SIZE >= n,
            num_chunks == 0 || (num_chunks - 1) * CHUNK_SIZE < n,
            dest.len() == n,
            bucket_starts.len() == N_BUCKETS,
            forall|b2: int| 0 <= b2 < N_BUCKETS ==> #[trigger] bucket_starts@[b2] == count_lt(ds, n as nat, b2),
            chunk_bases.len() == num_chunks,
            chunk_bases_ok(chunk_bases@, ds, n as int, num_chunks as int),
            forall|t: int| 0 <= t < chunk_end(c as int, n as int) ==> dest@[#[trigger] slot(ds, t)] == source@[t],
    {
        proof {
            assert(c * CHUNK_SIZE < n) by (nonlinear_arith)
                requires
                    c < num_chunks,
                    num_chunks == 0 || (num_chunks - 1) * 8192 < n,
            ;
            assert((c + 1) * CHUNK_SIZE == c * CHUNK_SIZE + CHUNK_SIZE) by (nonlinear_arith);
        }
        let lo = c * CHUNK_SIZE;
        let hi = if n - lo > CHUNK_SIZE { lo + CHUNK_SIZE } else { n };
        proof {
            assert(lo == chunk_end(c as int, n as int));
            assert(hi == chunk_end(c + 1, n as int));
        }
        let mut local: Vec<usize> = Vec::new();
        for _b in 0..N_BUCKETS
            invariant
                local.len() == _b,
                forall|b: int| 0 <= b < local.len() ==> local@[b] == 0,
        {
            local.push(0);
        }
        for a in lo..hi
            invariant
                n == source.len(),
                ds == digits(keys, shift as nat),
                ds.len() == n,
                keys.len() == n,
                shift < 64,
                lo <= hi <= n,
                c < num_chunks,
                lo == chunk_end(c as int, n as int),
                key_is_total::<R, F>(*f),
                key_is_deterministic::<R, F>(*f),
                forall|a2: int| 0 <= a2 < n ==> call_ensures(*f, (&source@[a2],), #[trigger] keys[a2]),
                dest.len() == n,
                bucket_starts.len() == N_BUCKETS,
                forall|b2: int| 0 <= b2 < N_BUCKETS ==> #[trigger] bucket_starts@[b2] == count_lt(ds, n as nat, b2),
                chunk_bases.len() == num_chunks,
                chunk_bases_ok(chunk_bases@, ds, n as int, num_chunks as int),
                local.len() == N_BUCKETS,
                forall|b: int| 0 <= b < N_BUCKETS ==> #[trigger] local@[b] + count_eq(ds, lo as nat, b) == count_eq(ds, a as nat, b),
                forall|t: int| 0 <= t < a ==> dest@[#[trigger] slot(ds, t)] == source@[t],
        {
            let k = f(&source[a]);
            let d = bucket_of(k, shift);
            proof {
                assert(call_ensures(*f, (&source@[a as int],), keys[a as int]));
                assert(k == keys[a as int]);
                assert(ds[a as int] == d);
                lemma_slot(ds, a as int, a as int);
                assert(chunk_bases@[c as int]@[d as int] == count_eq(ds, lo as nat, d as int));
                assert(local@[d as int] + count_eq(ds, lo as nat, d as int) == count_eq(ds, a as nat, d as int));
                lemma_count_eq_mono(ds, (a + 1) as nat, n as nat, d as int);
                lemma_count_lt_step(ds, n as nat, d as int);
                lemma_count_lt_bound(ds, n as nat, d + 1);
            }
            let idx = bucket_starts[d] + chunk_bases[c][d] + local[d];
            assert(idx == slot(ds, a as int));
            let ghost old_dest = dest@;
            dest.set(idx, source[a]);
            let x = local[d];
            local.set(d, x + 1);
            proof {
                assert forall|t: int| 0 <= t < a + 1 implies dest@[#[trigger] slot(ds, t)] == source@[t] by {
                    if t < a {
                        lemma_slot(ds, t, a as int);
                        lemma_slot(ds, a as int, t);
                        assert(old_dest[slot(ds, t)] == source@[t]);
                    }
                }
            }
        }
    }
    Ghost(keys)
}


/// Sorts as `radix_sort_by_key` does, with the buckets of each pass counted over
/// chunks of `CHUNK_SIZE` elements in parallel.
pub fn par_radix_sort_by_key<F: Copy + Send + Sync, N: Fn(&F) -> usize + Sync + Send>(slice: &mut Vec<F>, bits: usize, f: N)
    requires
        old(slice)@.len() > 1 ==> bits <= 66,
        key_is_total::<F, N>(f),
        key_is_deterministic::<F, N>(f),
    ensures
        exists|keys: Seq<usize>|
            {
                &&& keys.len() == old(slice)@.len()
                &&& old(slice)@.len() > 1 && bits > 0 ==> forall|i: int|
                    0 <= i < keys.len() ==> call_ensures(f, (&old(slice)@[i],), #[trigger] keys[i])
                &&& is_stable_sort(final(slice)@, old(slice)@, truncated_keys(keys, bits as nat))
            },
{
    let ghost inp = slice@;
    let n = slice.len();
    if n <= 1 {
        proof {
            let keys = Seq::new(n as nat, |i: int| 0usize);
            let id = |i: int| i;
            assert(is_stable_placement(slice@, inp, truncated_keys(keys, bits as nat), id));
        }
        return;
    }
    let passes = (bits + 5) / 6;
    let (mut source, mut destination) = working_copies(slice);
    let ghost mut keys: Seq<usize> = Seq::new(n as nat, |i: int| 0usize);
    let ghost mut pi: spec_fn(int) -> int = |i: int| i;
    proof {
        lemma2_to64();
        assert(source@ == inp);
    }
    let mut shift: u64 = 0;
    let mut p: usize = 0;
    while p < passes
        invariant
            n == inp.len(),
            n > 1,
            source.len() == n,
            destination.len() == n,
            passes == radix_passes(bits as nat),
            passes <= 11,
            p <= passes,
            shift == 6 * p,
            keys.len() == n,
            key_is_total::<F, N>(f),
            key_is_deterministic::<F, N>(f),
            p > 0 ==> forall|i: int| 0 <= i < n ==> call_ensures(f, (&inp[i],), #[trigger] keys[i]),
            is_stable_placement(source@, inp, low_keys(keys, p as nat), pi),
            p == 0 ==> source@ == inp,
            p == 0 ==> forall|i: int| #[trigger] pi(i) == i,
        decreases passes - p,
    {
        let ks = par_counting_pass(&source, &mut destination, shift, &f);
        proof {
            let (k2, pi2) = lemma_pass_step(f, inp, source@, destination@, keys, pi, ks@, p as nat);
            keys = k2;
            pi = pi2;
        }
        std::mem::swap(&mut source, &mut destination);
        shift = shift + 6;
        p = p + 1;
    }
    *slice = source;
    proof {
        assert(is_stable_placement(slice@, inp, truncated_keys(keys, bits as nat), pi));
    }
}


} // verus!
