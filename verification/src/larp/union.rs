use vstd::prelude::*;

verus! {

/// `u` is commutative.
pub open spec fn is_commutative<B>(u: spec_fn(B, B) -> B) -> bool {
    forall|a: B, b: B| #[trigger] u(a, b) == u(b, a)
}

/// `u` is associative.
pub open spec fn is_associative<B>(u: spec_fn(B, B) -> B) -> bool {
    forall|a: B, b: B, c: B| #[trigger] u(u(a, b), c) == u(a, #[trigger] u(b, c))
}

/// The union of the boxes of a non-empty sequence, taken from left to right:
/// `u(...u(u(s[0], s[1]), s[2])..., s[n - 1])`.
pub open spec fn union_all<B>(s: Seq<B>, u: spec_fn(B, B) -> B) -> B
    decreases s.len(),
{
    if s.len() <= 1 {
        s[0]
    } else {
        u(union_all(s.drop_last(), u), s.last())
    }
}

/// Under an associative `u`, the union of a concatenation is the union of the
/// unions of its parts.
pub proof fn lemma_union_all_concat<B>(a: Seq<B>, b: Seq<B>, u: spec_fn(B, B) -> B)
    requires
        a.len() >= 1,
        b.len() >= 1,
        is_associative(u),
    ensures
        union_all(a + b, u) == u(union_all(a, u), union_all(b, u)),
    decreases b.len(),
{
    assert((a + b).drop_last() =~= a + b.drop_last());
    if b.len() == 1 {
        assert(a + b.drop_last() =~= a);
    } else {
        lemma_union_all_concat(a, b.drop_last(), u);
        let x = union_all(a, u);
        let y = union_all(b.drop_last(), u);
        assert(u(u(x, y), b.last()) == u(x, u(y, b.last())));
    }
}

/// Under a commutative and associative `u`, the union of a sequence is the union
/// of the sequence without its element at `k` and that element.
proof fn lemma_union_all_remove<B>(t: Seq<B>, k: int, u: spec_fn(B, B) -> B)
    requires
        t.len() >= 2,
        0 <= k < t.len(),
        is_commutative(u),
        is_associative(u),
    ensures
        union_all(t, u) == u(union_all(t.remove(k), u), t[k]),
    decreases t.len(),
{
    let d = t.drop_last();
    let y = t.last();
    if k == t.len() - 1 {
        assert(t.remove(k) =~= d);
    } else if d.len() == 1 {
        assert(t.remove(k) =~= seq![y]);
        assert(union_all(d, u) == t[0]);
        assert(u(t[0], y) == u(y, t[0]));
    } else {
        lemma_union_all_remove(d, k, u);
        let r = d.remove(k);
        assert(t.remove(k) =~= r.push(y));
        assert(r.push(y).drop_last() =~= r);
        let x = union_all(r, u);
        let tk = t[k];
        assert(d[k] == tk);
        assert(u(u(x, tk), y) == u(x, u(tk, y)));
        assert(u(tk, y) == u(y, tk));
        assert(u(u(x, y), tk) == u(x, u(y, tk)));
    }
}

/// Under a commutative and associative `u`, rearranging a non-empty sequence does
/// not change its union.
pub proof fn lemma_union_all_permutation<B>(s: Seq<B>, t: Seq<B>, u: spec_fn(B, B) -> B)
    requires
        s.len() >= 1,
        t.to_multiset() == s.to_multiset(),
        is_commutative(u),
        is_associative(u),
    ensures
        union_all(t, u) == union_all(s, u),
    decreases s.len(),
{
    broadcast use vstd::seq_lib::group_to_multiset_ensures;
    broadcast use vstd::multiset::group_multiset_axioms;
    assert(t.len() == s.len()) by {
        s.to_multiset_ensures();
        t.to_multiset_ensures();
    }
    let x = s.last();
    let d = s.drop_last();
    assert(s =~= d.push(x));
    assert(s.to_multiset() =~= d.to_multiset().insert(x));
    assert(t.to_multiset().count(x) > 0);
    assert(t.contains(x));
    let k = choose|k: int| 0 <= k < t.len() && t[k] == x;
    if s.len() == 1 {
        assert(t[0] == x);
    } else {
        let r = t.remove(k);
        assert(r.to_multiset() =~= t.to_multiset().remove(x));
        assert(d.to_multiset() =~= s.to_multiset().remove(x));
        lemma_union_all_permutation(d, r, u);
        lemma_union_all_remove(t, k, u);
    }
}

} // verus!
