use vstd::prelude::*;

verus! {

use crate::larp::karras::{lemma_split_deepens, lemma_delta_top_bits, delta, strictly_increasing, is_karras_range, is_karras_split, karras_dir, karras_floor, good_range, range_index, lemma_delta_basics, lemma_delta_bounds, lemma_delta_widen, lemma_karras_first_step, lemma_karras_range_of_good, lemma_split_children, lemma_root_range, lemma_split_unique};
use vstd::arithmetic::power2::{pow2, lemma_pow2_unfold};
use crate::math::radix::{RadixSorter, radix_sort_by_key, par_radix_sort_by_key, radix_passes, truncated_keys, is_stable_sort, key_is_total, key_is_deterministic, lemma_sorted_by_exact_keys, lemma_stable_sort_order, lemma_stable_sort_origin, lemma_stable_sort_map, lemma_stable_sort_unique, lemma_stable_sort_is_permutation, lemma_stable_sort_is_sorted, lex_lt};
use crate::math::morton::MortonParameter;
use crate::par::par_map_indices;
use crate::larp::union::{union_all, is_commutative, is_associative, lemma_union_all_concat, lemma_union_all_permutation};
use rayon::slice::ParallelSliceMut;

/// A node of a linear bounding volume hierarchy, with a bounding box of type `B`.
#[derive(Debug, Clone, Copy, PartialEq)]
pub enum LinearBvhNode<B> {
    Internal { bbox: B, left: u32, right: u32 },
    Leaf { bbox: B, primitive_index: u32 },
}

/// The bounding box of a node.
pub open spec fn node_box<B>(node: LinearBvhNode<B>) -> B {
    match node {
        LinearBvhNode::Internal { bbox, .. } => bbox,
        LinearBvhNode::Leaf { bbox, .. } => bbox,
    }
}

impl<B: Copy> LinearBvhNode<B> {
    /// An internal node with children at `left` and `right`, each kept to 32 bits.
    pub fn new_internal(bbox: B, left: usize, right: usize) -> (node: Self)
        ensures
            node == (LinearBvhNode::Internal { bbox, left: left as u32, right: right as u32 }),
    {
        LinearBvhNode::Internal { bbox, left: left as u32, right: right as u32 }
    }

    /// A leaf for the primitive at `primitive_index`, kept to 32 bits.
    pub fn new_leaf(bbox: B, primitive_index: usize) -> (node: Self)
        ensures
            node == (LinearBvhNode::Leaf { bbox, primitive_index: primitive_index as u32 }),
    {
        LinearBvhNode::Leaf { bbox, primitive_index: primitive_index as u32 }
    }

    /// The bounding box of this node.
    pub fn bounding_box(&self) -> (bbox: B)
        ensures
            bbox == node_box(*self),
    {
        match self {
            LinearBvhNode::Internal { bbox, .. } => *bbox,
            LinearBvhNode::Leaf { bbox, .. } => *bbox,
        }
    }
}

/// A primitive with the Morton code of its centre.
#[derive(Debug, Clone, Copy)]
pub struct MortonPrimitive {
    morton_code: u32,
    primitive_index: usize,
}

impl MortonPrimitive {
    /// The Morton code.
    pub closed spec fn code(self) -> u32 {
        self.morton_code
    }

    /// The index of the primitive.
    pub closed spec fn index(self) -> usize {
        self.primitive_index
    }

    /// The Morton code, read at run time.
    pub(crate) fn code_value(&self) -> (r: u32)
        ensures
            r == self.code(),
    {
        self.morton_code
    }

    /// The 64-bit key under which the hierarchy orders primitives: the Morton code
    /// in the high half and the primitive index in the low half.
    pub open spec fn key(self) -> u64 {
        ((self.code() as u64) << 32u64) | (self.index() as u64)
    }
}

/// The index `l` steps from `i` in direction `d`.
pub open spec fn reach(i: int, l: int, d: int) -> int {
    if d > 0 {
        i + l
    } else {
        i - l
    }
}

/// The keys of a sequence of primitives.
pub open spec fn primitive_keys(mp: Seq<MortonPrimitive>) -> Seq<u64> {
    Seq::new(mp.len(), |t: int| mp[t].key())
}

/// A bounding volume hierarchy stored as a flat vector of nodes: the `n - 1`
/// internal nodes first, node 0 the root, then the `n` leaves.
#[derive(Debug)]
pub struct LinearBvh<B> {
    nodes: Vec<LinearBvhNode<B>>,
}

impl<B> View for LinearBvh<B> {
    type V = Seq<LinearBvhNode<B>>;

    closed spec fn view(&self) -> Seq<LinearBvhNode<B>> {
        self.nodes@
    }
}

/// `nodes` is the binary radix tree of the strictly increasing keys `ks`, all below
/// 2^62, rooted at node 0, with the `ks.len()` leaves after the internal nodes.
pub open spec fn is_radix_tree<B>(nodes: Seq<LinearBvhNode<B>>, ks: Seq<u64>) -> bool {
    &&& ks.len() >= 1
    &&& nodes.len() == 2 * ks.len() - 1
    &&& strictly_increasing(ks)
    &&& forall|t: int| 0 <= t < ks.len() ==> #[trigger] ks[t] < 0x4000_0000_0000_0000
    &&& subtree_ok(nodes, ks, 0, 0, ks.len() - 1)
}

impl<B> LinearBvh<B> {
    /// A hierarchy is empty or a binary radix tree.
    #[verifier::type_invariant]
    spec fn wf(self) -> bool {
        self.nodes@.len() == 0 || exists|ks: Seq<u64>| is_radix_tree(self.nodes@, ks)
    }
}

impl<B: Copy> LinearBvh<B> {
    /// A hierarchy with no nodes.
    pub fn empty() -> (bvh: Self)
        ensures
            bvh@ == Seq::<LinearBvhNode<B>>::empty(),
    {
        LinearBvh { nodes: Vec::new() }
    }

    /// The index `l` steps from `i` in direction `d`.
    fn reach(i: isize, l: isize, d: isize) -> (r: isize)
        requires
            d == 1 || d == -1,
            0 <= i <= isize::MAX / 4,
            0 <= l <= isize::MAX / 2,
        ensures
            r == reach(i as int, l as int, d as int),
    {
        if d > 0 {
            i + l
        } else {
            i - l
        }
    }

    /// The length of the prefix that the keys of primitives `i` and `j` share, or -1
    /// where `j` lies outside the primitives.
    fn delta(morton_primitives: &Vec<MortonPrimitive>, i: isize, j: isize) -> (r: i32)
        requires
            0 <= i < morton_primitives.len(),
            morton_primitives.len() <= isize::MAX,
        ensures
            r == delta(primitive_keys(morton_primitives@), i as int, j as int),
    {
        if j < 0 || j >= morton_primitives.len() as isize {
            return -1;
        }
        let pi = &morton_primitives[i as usize];
        let pj = &morton_primitives[j as usize];
        let a = ((pi.morton_code as u64) << 32) | (pi.primitive_index as u64);
        let b = ((pj.morton_code as u64) << 32) | (pj.primitive_index as u64);
        let z = (a ^ b).leading_zeros();
        proof {
            vstd::std_specs::bits::axiom_u64_leading_zeros(a ^ b);
        }
        z as i32
    }

    /// The key range `[first, last]` of internal node `i` and the index `split`
    /// where it divides, by the construction of Karras: the range extends from `i`
    /// towards the neighbour that shares the longer prefix (exponential then binary
    /// search), and `split` is found by binary search within it.
    fn find_range_and_split(morton_primitives: &Vec<MortonPrimitive>, i: usize) -> (r: (usize, usize, usize))
        requires
            strictly_increasing(primitive_keys(morton_primitives@)),
            2 <= morton_primitives.len() <= isize::MAX / 4,
            i < morton_primitives.len() - 1,
        ensures
            is_karras_range(primitive_keys(morton_primitives@), i as int, r.0 as int, r.2 as int),
            is_karras_split(primitive_keys(morton_primitives@), r.0 as int, r.1 as int, r.2 as int),
    {
        let ghost ks = primitive_keys(morton_primitives@);
        let n = morton_primitives.len();
        let i = i as isize;

        let delta_left = Self::delta(morton_primitives, i, i - 1);
        let delta_right = Self::delta(morton_primitives, i, i + 1);

        let d: isize = if delta_right > delta_left { 1 } else { -1 };
        let delta_min = Self::delta(morton_primitives, i, i - d);
        proof {
            lemma_karras_first_step(ks, i as int);
            lemma_delta_bounds(ks, i as int, i - d);
            assert(d == karras_dir(ks, i as int));
            assert(delta_min == karras_floor(ks, i as int));
        }

        let mut l_max: isize = 2;
        let ghost mut e: nat = 1;
        proof {
            lemma_pow2_unfold(1);
            vstd::arithmetic::power2::lemma2_to64();
        }
        while Self::delta(morton_primitives, i, Self::reach(i, l_max, d)) > delta_min
            invariant
                ks == primitive_keys(morton_primitives@),
                n == morton_primitives.len(),
                2 <= n <= isize::MAX / 4,
                0 <= i < n - 1,
                d == 1 || d == -1,
                -1 <= delta_min,
                2 <= l_max <= 2 * n,
                l_max == pow2(e),
                e >= 1,
                delta(ks, i as int, reach(i as int, l_max / 2, d as int)) > delta_min,
            decreases 2 * n - l_max,
        {
            proof {
                lemma_delta_bounds(ks, i as int, reach(i as int, l_max as int, d as int));
                lemma_pow2_unfold(e + 1);
                e = e + 1;
            }
            l_max = l_max * 2;
        }

        let mut l: isize = 0;
        let mut step = l_max / 2;
        let ghost mut se: nat = (e - 1) as nat;
        proof {
            lemma_pow2_unfold(e);
            lemma_delta_basics(ks, i as int, i as int);
        }
        while step > 0
            invariant
                ks == primitive_keys(morton_primitives@),
                n == morton_primitives.len(),
                2 <= n <= isize::MAX / 4,
                0 <= i < n - 1,
                d == 1 || d == -1,
                0 <= l,
                0 <= step,
                l + 2 * step <= 2 * n,
                step > 0 ==> step == pow2(se),
                delta(ks, i as int, reach(i as int, l as int, d as int)) > delta_min,
                delta(ks, i as int, reach(i as int, l + if step == 0 { 1 } else { 2 * step }, d as int)) <= delta_min,
            decreases step,
        {
            let ghost old_l = l;
            let ghost old_step = step;
            if Self::delta(morton_primitives, i, Self::reach(i, l + step, d)) > delta_min {
                l = l + step;
            }
            proof {
                if se > 0 {
                    lemma_pow2_unfold(se);
                    se = (se - 1) as nat;
                    assert(step / 2 * 2 == step);
                } else {
                    vstd::arithmetic::power2::lemma2_to64();
                    assert(step == 1);
                }
            }
            step = step / 2;
        }

        let j = Self::reach(i, l, d);
        proof {
            lemma_delta_bounds(ks, i as int, j as int);
            lemma_delta_bounds(ks, i as int, j + d);
            assert(reach(i as int, l + 1, d as int) == j + d);
            assert(delta(ks, i as int, i + d) > delta_min);
            if l == 0 {
                assert(reach(i as int, 1, d as int) == i + d);
                assert(false);
            }
            assert(0 <= j < n);
        }
        let first = if i < j { i } else { j } as usize;
        let last = if i < j { j } else { i } as usize;

        let delta_node = Self::delta(morton_primitives, first as isize, last as isize);
        proof {
            lemma_delta_basics(ks, first as int, last as int);
            lemma_delta_basics(ks, first as int, first as int);
        }

        let mut split = first as isize;
        let mut span = (last - first) as isize;

        while span > 1
            invariant
                ks == primitive_keys(morton_primitives@),
                n == morton_primitives.len(),
                n <= isize::MAX / 4,
                strictly_increasing(ks),
                first < last < n,
                first <= split < last,
                1 <= span <= n,
                delta_node == delta(ks, first as int, last as int),
                delta(ks, first as int, split as int) > delta_node,
                split + span >= last || delta(ks, first as int, split + span) <= delta_node,
            decreases span,
        {
            let ghost old_split = split;
            let ghost old_span = span;
            span = (span + 1) / 2;
            let new_split = split + span;

            if new_split < last as isize {
                let delta_split = Self::delta(morton_primitives, first as isize, new_split);

                if delta_split > delta_node {
                    split = new_split;
                }
            }
            proof {
                assert(2 * span >= old_span);
                if split == new_split {
                    assert(delta(ks, first as int, split as int) > delta_node);
                    if old_split + old_span < last && split + span < last {
                        lemma_delta_widen(ks, first as int, old_split + old_span, split + span);
                    }
                }
            }
        }

        (first, split as usize, last)
    }
}


/// The Morton codes of a sequence of primitives, as sort keys.
pub open spec fn primitive_codes(mp: Seq<MortonPrimitive>) -> Seq<usize> {
    Seq::new(mp.len(), |i: int| mp[i].code() as usize)
}

impl RadixSorter for Vec<MortonPrimitive> {
    /// Sorts the primitives stably by the low 30 bits of their Morton codes.
    fn radix_sort(&mut self)
        ensures
            is_stable_sort(final(self)@, old(self)@, truncated_keys(primitive_codes(old(self)@), 30)),
    {
        let ghost inp = self@;
        let key = |p: &MortonPrimitive| -> (r: usize)
            ensures
                r == p.code() as usize,
            { p.morton_code as usize };
        assert(key_is_total::<MortonPrimitive, _>(key));
        assert(key_is_deterministic::<MortonPrimitive, _>(key));
        proof {
            <u32 as MortonParameter>::lemma_bits_per_axis();
        }
        radix_sort_by_key(self, 3 * <u32 as MortonParameter>::BITS_PER_AXIS, key);
        proof {
            lemma_sorted_by_exact_keys(self@, inp, key, primitive_codes(inp), 30);
        }
    }

    /// Sorts as `radix_sort` does, counting in parallel.
    fn par_radix_sort(&mut self)
        ensures
            is_stable_sort(final(self)@, old(self)@, truncated_keys(primitive_codes(old(self)@), 30)),
    {
        let ghost inp = self@;
        let key = |p: &MortonPrimitive| -> (r: usize)
            ensures
                r == p.code() as usize,
            { p.morton_code as usize };
        assert(key_is_total::<MortonPrimitive, _>(key));
        assert(key_is_deterministic::<MortonPrimitive, _>(key));
        proof {
            <u32 as MortonParameter>::lemma_bits_per_axis();
        }
        par_radix_sort_by_key(self, 3 * <u32 as MortonParameter>::BITS_PER_AXIS, key);
        proof {
            lemma_sorted_by_exact_keys(self@, inp, key, primitive_codes(inp), 30);
        }
    }
}


/// The split index that an internal node's left child stands for: the child's own
/// index if it is internal, its key index if it is a leaf.
pub open spec fn child_split(left: int, off: int) -> int {
    if left >= off {
        left - off
    } else {
        left
    }
}

/// `nodes[idx]` is the root of the binary radix tree over the key range `[f, l]`:
/// a leaf at `off + f` where `f == l`, else an internal node whose children are the
/// roots of the trees over `[f, s]` and `[s + 1, l]`, `s` being the split of the
/// range; a child over a single key is that key's leaf. `off = ks.len() - 1` is
/// where the leaves start.
pub open spec fn subtree_ok<B>(nodes: Seq<LinearBvhNode<B>>, ks: Seq<u64>, idx: int, f: int, l: int) -> bool
    decreases l - f,
{
    let off = ks.len() - 1;
    if l <= f {
        &&& f == l
        &&& 0 <= f < ks.len()
        &&& idx == off + f
        &&& idx < nodes.len()
        &&& nodes[idx] is Leaf
    } else {
        &&& 0 <= idx < off
        &&& idx < nodes.len()
        &&& (idx == f || idx == l)
        &&& match nodes[idx] {
            LinearBvhNode::Internal { left, right, .. } => {
                let s = child_split(left as int, off);
                if is_karras_split(ks, f, s, l) {
                    &&& left == if s == f { off + f } else { s }
                    &&& right == if s + 1 == l { off + l } else { s + 1 }
                    &&& subtree_ok(nodes, ks, left as int, f, s)
                    &&& subtree_ok(nodes, ks, right as int, s + 1, l)
                } else {
                    false
                }
            },
            LinearBvhNode::Leaf { .. } => false,
        }
    }
}

/// In the tree of `subtree_ok(nodes, ks, idx, f, l)`, each internal node's box is
/// what `union` gives for its children's boxes.
pub open spec fn boxes_ok<B, U: Fn(&B, &B) -> B>(nodes: Seq<LinearBvhNode<B>>, ks: Seq<u64>, idx: int, f: int, l: int, union: U) -> bool
    decreases l - f,
{
    let off = ks.len() - 1;
    if l <= f {
        true
    } else {
        match nodes[idx] {
            LinearBvhNode::Internal { bbox, left, right } => {
                let s = child_split(left as int, off);
                if f <= s < l {
                    &&& call_ensures(union, (&node_box(nodes[left as int]), &node_box(nodes[right as int])), bbox)
                    &&& boxes_ok(nodes, ks, left as int, f, s, union)
                    &&& boxes_ok(nodes, ks, right as int, s + 1, l, union)
                } else {
                    true
                }
            },
            LinearBvhNode::Leaf { .. } => true,
        }
    }
}

/// Two nodes of the same kind with the same links.
pub open spec fn same_links<B>(a: LinearBvhNode<B>, b: LinearBvhNode<B>) -> bool {
    match (a, b) {
        (LinearBvhNode::Internal { left: l1, right: r1, .. }, LinearBvhNode::Internal { left: l2, right: r2, .. }) => l1 == l2 && r1 == r2,
        (LinearBvhNode::Leaf { primitive_index: p1, .. }, LinearBvhNode::Leaf { primitive_index: p2, .. }) => p1 == p2,
        _ => false,
    }
}

/// Two node vectors with the same shape: only the boxes may differ.
pub open spec fn same_shape<B>(a: Seq<LinearBvhNode<B>>, b: Seq<LinearBvhNode<B>>) -> bool {
    &&& a.len() == b.len()
    &&& forall|x: int| 0 <= x < a.len() ==> #[trigger] same_links(a[x], b[x])
}

/// The nodes that the tree over `[f, l]` rooted at `idx` reads: its root, the
/// internal nodes strictly inside the range, and the range's leaves.
pub open spec fn in_subtree(x: int, idx: int, f: int, l: int, off: int) -> bool {
    x == idx || (f < x < l) || (off + f <= x <= off + l)
}

proof fn lemma_subtree_shape<B>(n1: Seq<LinearBvhNode<B>>, n2: Seq<LinearBvhNode<B>>, ks: Seq<u64>, idx: int, f: int, l: int)
    requires
        subtree_ok(n1, ks, idx, f, l),
        same_shape(n1, n2),
    ensures
        subtree_ok(n2, ks, idx, f, l),
    decreases l - f,
{
    let off = ks.len() - 1;
    assert(same_links(n1[idx], n2[idx]));
    if f < l {
        let left = n1[idx]->left as int;
        let right = n1[idx]->right as int;
        let s = child_split(left, off);
        lemma_subtree_shape(n1, n2, ks, left, f, s);
        lemma_subtree_shape(n1, n2, ks, right, s + 1, l);
    }
}


/// The nodes of the tree rooted at `idx`, followed through at most `d` levels of
/// internal nodes.
pub open spec fn tree_nodes<B>(nodes: Seq<LinearBvhNode<B>>, idx: int, d: nat) -> Set<int>
    decreases d,
{
    if d > 0 && 0 <= idx < nodes.len() && nodes[idx] is Internal {
        set![idx] + tree_nodes(nodes, nodes[idx]->left as int, (d - 1) as nat)
            + tree_nodes(nodes, nodes[idx]->right as int, (d - 1) as nat)
    } else {
        set![idx]
    }
}

/// `nodes[idx]` is the root of a binary tree of depth at most `d`: every link stays
/// in the vector, and the two subtrees of an internal node share no node with each
/// other or with the node itself.
pub open spec fn tree_ok<B>(nodes: Seq<LinearBvhNode<B>>, idx: int, d: nat) -> bool
    decreases d,
{
    &&& 0 <= idx < nodes.len()
    &&& match nodes[idx] {
        LinearBvhNode::Leaf { .. } => true,
        LinearBvhNode::Internal { left, right, .. } => {
            if d > 0 {
                let lt = tree_nodes(nodes, left as int, (d - 1) as nat);
                let rt = tree_nodes(nodes, right as int, (d - 1) as nat);
                &&& tree_ok(nodes, left as int, (d - 1) as nat)
                &&& tree_ok(nodes, right as int, (d - 1) as nat)
                &&& !lt.contains(idx)
                &&& !rt.contains(idx)
                &&& lt.disjoint(rt)
            } else {
                false
            }
        },
    }
}

/// In the tree of `tree_ok(nodes, idx, d)`, each internal node's box is what
/// `union` gives for its children's boxes.
pub open spec fn tree_boxes_ok<B, U: Fn(&B, &B) -> B>(nodes: Seq<LinearBvhNode<B>>, idx: int, d: nat, union: U) -> bool
    decreases d,
{
    if d > 0 && 0 <= idx < nodes.len() && nodes[idx] is Internal {
        let left = nodes[idx]->left as int;
        let right = nodes[idx]->right as int;
        &&& call_ensures(union, (&node_box(nodes[left]), &node_box(nodes[right])), nodes[idx]->Internal_bbox)
        &&& tree_boxes_ok(nodes, left, (d - 1) as nat, union)
        &&& tree_boxes_ok(nodes, right, (d - 1) as nat, union)
    } else {
        true
    }
}

/// Trees of the same shape have the same nodes, and one is well formed where the
/// other is.
proof fn lemma_tree_shape<B>(n1: Seq<LinearBvhNode<B>>, n2: Seq<LinearBvhNode<B>>, idx: int, d: nat)
    requires
        same_shape(n1, n2),
    ensures
        tree_nodes(n2, idx, d) == tree_nodes(n1, idx, d),
        tree_ok(n1, idx, d) ==> tree_ok(n2, idx, d),
    decreases d,
{
    if 0 <= idx < n1.len() {
        assert(same_links(n1[idx], n2[idx]));
        if d > 0 && n1[idx] is Internal {
            lemma_tree_shape(n1, n2, n1[idx]->left as int, (d - 1) as nat);
            lemma_tree_shape(n1, n2, n1[idx]->right as int, (d - 1) as nat);
        }
    }
}

/// The boxes of a tree stay right where no node of the tree changes.
proof fn lemma_tree_boxes_frame<B, U: Fn(&B, &B) -> B>(n1: Seq<LinearBvhNode<B>>, n2: Seq<LinearBvhNode<B>>, idx: int, d: nat, union: U)
    requires
        tree_ok(n1, idx, d),
        tree_boxes_ok(n1, idx, d, union),
        n1.len() == n2.len(),
        forall|x: int| 0 <= x < n1.len() && #[trigger] tree_nodes(n1, idx, d).contains(x) ==> n2[x] == n1[x],
    ensures
        tree_boxes_ok(n2, idx, d, union),
    decreases d,
{
    assert(tree_nodes(n1, idx, d).contains(idx));
    if d > 0 && n1[idx] is Internal {
        let left = n1[idx]->left as int;
        let right = n1[idx]->right as int;
        let e = (d - 1) as nat;
        assert(tree_nodes(n1, left, e).contains(left));
        assert(tree_nodes(n1, right, e).contains(right));
        assert forall|x: int| 0 <= x < n1.len() && #[trigger] tree_nodes(n1, left, e).contains(x) implies n2[x] == n1[x] by {
            assert(tree_nodes(n1, idx, d).contains(x));
        }
        assert forall|x: int| 0 <= x < n1.len() && #[trigger] tree_nodes(n1, right, e).contains(x) implies n2[x] == n1[x] by {
            assert(tree_nodes(n1, idx, d).contains(x));
        }
        lemma_tree_boxes_frame(n1, n2, left, (d - 1) as nat, union);
        lemma_tree_boxes_frame(n1, n2, right, (d - 1) as nat, union);
    }
}

/// The tree of a key range is a binary tree of depth at most `d` for any `d` at
/// least the range's length, whose nodes all belong to the range; where each of
/// its internal boxes is the union of its children's, `boxes_ok` holds.
proof fn lemma_karras_tree<B, U: Fn(&B, &B) -> B>(nodes: Seq<LinearBvhNode<B>>, ks: Seq<u64>, idx: int, f: int, l: int, d: nat, union: U)
    requires
        subtree_ok(nodes, ks, idx, f, l),
        d >= l - f,
    ensures
        0 <= f <= l < ks.len(),
        tree_ok(nodes, idx, d),
        forall|x: int| #[trigger] tree_nodes(nodes, idx, d).contains(x) ==> in_subtree(x, idx, f, l, ks.len() - 1),
        tree_boxes_ok(nodes, idx, d, union) ==> boxes_ok(nodes, ks, idx, f, l, union),
    decreases l - f,
{
    let off = ks.len() - 1;
    if f < l {
        let left = nodes[idx]->left as int;
        let right = nodes[idx]->right as int;
        let s = child_split(left, off);
        let e = (d - 1) as nat;
        lemma_karras_tree(nodes, ks, left, f, s, e, union);
        lemma_karras_tree(nodes, ks, right, s + 1, l, e, union);
        let lt = tree_nodes(nodes, left, e);
        let rt = tree_nodes(nodes, right, e);
        assert forall|x: int| lt.contains(x) implies !rt.contains(x) && x != idx by {
            assert(in_subtree(x, left, f, s, off));
            if rt.contains(x) {
                assert(in_subtree(x, right, s + 1, l, off));
            }
        }
        assert(!rt.contains(idx)) by {
            if rt.contains(idx) {
                assert(in_subtree(idx, right, s + 1, l, off));
            }
        }
        assert(lt.disjoint(rt));
        assert forall|x: int| #[trigger] tree_nodes(nodes, idx, d).contains(x) implies in_subtree(x, idx, f, l, off) by {
            if lt.contains(x) {
                assert(in_subtree(x, left, f, s, off));
            } else if rt.contains(x) {
                assert(in_subtree(x, right, s + 1, l, off));
            }
        }
    }
}

/// After the propagation from the root of a key range's tree, the tree keeps its
/// links and each internal box is the union of its children's.
proof fn lemma_propagated<B, U: Fn(&B, &B) -> B>(built: Seq<LinearBvhNode<B>>, fin: Seq<LinearBvhNode<B>>, ks: Seq<u64>, d: nat, union: U)
    requires
        ks.len() >= 1,
        d == ks.len() - 1,
        subtree_ok(built, ks, 0, 0, d as int),
        same_shape(built, fin),
        tree_boxes_ok(fin, 0, d, union),
    ensures
        subtree_ok(fin, ks, 0, 0, d as int),
        boxes_ok(fin, ks, 0, 0, d as int, union),
{
    lemma_subtree_shape(built, fin, ks, 0, 0, d as int);
    lemma_karras_tree(fin, ks, 0, 0, d as int, d, union);
}

impl<B: Copy> LinearBvh<B> {
    /// Sets the box of every internal node of the binary tree rooted at
    /// `node_index` to the union of its children's boxes, children first; returns
    /// the root's box. No link, leaf or node outside the tree changes.
    fn propagate_bboxes<U: Fn(&B, &B) -> B>(
        nodes: &mut Vec<LinearBvhNode<B>>,
        node_index: u32,
        union: &U,
        Ghost(d): Ghost<nat>,
    ) -> (bbox: B)
        requires
            tree_ok(old(nodes)@, node_index as int, d),
            forall|a: &B, b: &B| #[trigger] call_requires(*union, (a, b)),
        ensures
            same_shape(old(nodes)@, final(nodes)@),
            tree_nodes(final(nodes)@, node_index as int, d) == tree_nodes(old(nodes)@, node_index as int, d),
            tree_ok(final(nodes)@, node_index as int, d),
            forall|x: int|
                0 <= x < old(nodes).len() && !(tree_nodes(old(nodes)@, node_index as int, d).contains(x) && old(nodes)@[x] is Internal)
                    ==> #[trigger] final(nodes)@[x] == old(nodes)@[x],
            tree_boxes_ok(final(nodes)@, node_index as int, d, *union),
            bbox == node_box(final(nodes)@[node_index as int]),
        decreases d,
    {
        let node = nodes[node_index as usize];
        match node {
            LinearBvhNode::Leaf { bbox, .. } => {
                bbox
            },
            LinearBvhNode::Internal { left, right, .. } => {
                let ghost n0 = nodes@;
                let ghost e = (d - 1) as nat;
                let ghost lt = tree_nodes(n0, left as int, e);
                let ghost rt = tree_nodes(n0, right as int, e);
                proof {
                    assert(tree_ok(n0, node_index as int, d));
                    assert(lt.contains(left as int));
                    assert(rt.contains(right as int));
                    assert(lt.disjoint(rt));
                    assert(!lt.contains(node_index as int));
                    assert(!rt.contains(node_index as int));
                }
                let left_bbox = Self::propagate_bboxes(nodes, left, union, Ghost(e));
                let ghost n1 = nodes@;
                proof {
                    lemma_tree_shape(n0, n1, right as int, e);
                }
                let right_bbox = Self::propagate_bboxes(nodes, right, union, Ghost(e));
                let ghost n2 = nodes@;
                proof {
                    lemma_tree_shape(n1, n2, left as int, e);
                    lemma_tree_shape(n1, n2, right as int, e);
                    assert forall|x: int| 0 <= x < n1.len() && #[trigger] tree_nodes(n1, left as int, e).contains(x) implies n2[x] == n1[x] by {
                        assert(lt.contains(x));
                        assert(!rt.contains(x));
                    }
                    lemma_tree_boxes_frame(n1, n2, left as int, e, *union);
                    assert(n2[left as int] == n1[left as int]);
                }
                let bbox = union(&left_bbox, &right_bbox);
                nodes.set(node_index as usize, LinearBvhNode::Internal { bbox, left, right });
                proof {
                    let n3 = nodes@;
                    assert(same_links(n2[node_index as int], n3[node_index as int]));
                    assert(same_shape(n2, n3));
                    assert forall|x: int| 0 <= x < n2.len() && #[trigger] tree_nodes(n2, left as int, e).contains(x) implies n3[x] == n2[x] by {
                        assert(lt.contains(x));
                    }
                    assert forall|x: int| 0 <= x < n2.len() && #[trigger] tree_nodes(n2, right as int, e).contains(x) implies n3[x] == n2[x] by {
                        assert(rt.contains(x));
                    }
                    lemma_tree_boxes_frame(n2, n3, left as int, e, *union);
                    lemma_tree_boxes_frame(n2, n3, right as int, e, *union);
                    assert forall|x: int| 0 <= x < n0.len() implies #[trigger] same_links(n0[x], n3[x]) by {
                        assert(same_links(n0[x], n1[x]));
                        assert(same_links(n1[x], n2[x]));
                        assert(same_links(n2[x], n3[x]));
                    }
                    lemma_tree_shape(n0, n3, node_index as int, d);
                    lemma_tree_shape(n2, n3, left as int, e);
                    lemma_tree_shape(n2, n3, right as int, e);
                    assert forall|x: int|
                        0 <= x < n0.len() && !(tree_nodes(n0, node_index as int, d).contains(x) && n0[x] is Internal)
                            implies #[trigger] n3[x] == n0[x] by {
                        assert(n1[x] == n0[x]);
                        assert(n2[x] == n1[x]);
                    }
                }
                bbox
            },
        }
    }
}


/// The key of the primitive at `index` with Morton code `code`.
pub open spec fn code_index_key(code: u32, index: int) -> u64 {
    ((code as u64) << 32u64) | (index as u64)
}

/// The primitive indices of the leaves, in leaf order.
pub open spec fn leaf_order<B>(nodes: Seq<LinearBvhNode<B>>, n: nat) -> Seq<int> {
    Seq::new(n, |t: int| nodes[n - 1 + t]->primitive_index as int)
}

/// The keys of the primitives in the order `order`.
pub open spec fn ordered_keys(codes: Seq<u32>, order: Seq<int>) -> Seq<u64> {
    Seq::new(order.len(), |t: int| code_index_key(codes[order[t]], order[t]))
}

/// `nodes` is the linear BVH of primitives with boxes `bboxes` and Morton codes
/// `codes`: the leaves hold the primitives sorted stably by code, each with its
/// box; the internal nodes, from the root at index 0, form the binary radix tree
/// of the keys (code, index) in leaf order; and each internal node's box is what
/// `union` gives for its children's boxes.
pub open spec fn is_lbvh<B, U: Fn(&B, &B) -> B>(nodes: Seq<LinearBvhNode<B>>, bboxes: Seq<B>, codes: Seq<u32>, union: U) -> bool {
    let n = codes.len();
    let order = leaf_order(nodes, n);
    let ks = ordered_keys(codes, order);
    &&& nodes.len() == 2 * n - 1
    &&& is_stable_sort(order, Seq::new(n, |i: int| i), Seq::new(n, |i: int| codes[i] as int))
    &&& forall|t: int| 0 <= t < n ==> #[trigger] node_box(nodes[n - 1 + t]) == bboxes[order[t]]
    &&& subtree_ok(nodes, ks, 0, 0, n - 1)
    &&& boxes_ok(nodes, ks, 0, 0, n - 1, union)
}

proof fn lemma_key_value(c: u32, i: u64)
    requires
        i < 0x1_0000_0000,
    ensures
        ((c as u64) << 32u64) | i == c * 0x1_0000_0000 + i,
{
    assert(((c as u64) << 32u64) | i == c * 0x1_0000_0000 + i) by (bit_vector)
        requires
            i < 0x1_0000_0000u64,
    ;
}

/// `node` holds the links that the construction gives internal node `i`, from its
/// range `[spl.0, spl.2]` and split `spl.1`.
pub open spec fn node_links_ok<B>(node: LinearBvhNode<B>, ks: Seq<u64>, spl: (int, int, int), i: int) -> bool {
    let off = ks.len() - 1;
    &&& is_karras_range(ks, i, spl.0, spl.2)
    &&& is_karras_split(ks, spl.0, spl.1, spl.2)
    &&& node is Internal
    &&& node->left == if spl.0 == spl.1 { off + spl.1 } else { spl.1 }
    &&& node->right == if spl.1 + 1 == spl.2 { off + spl.1 + 1 } else { spl.1 + 1 }
}

/// Node `i` holds the links that the construction gives internal node `i`.
pub open spec fn internal_links_ok<B>(nodes: Seq<LinearBvhNode<B>>, ks: Seq<u64>, spl: (int, int, int), i: int) -> bool {
    node_links_ok(nodes[i], ks, spl, i)
}

proof fn lemma_build_tree<B>(nodes: Seq<LinearBvhNode<B>>, ks: Seq<u64>, spl: Seq<(int, int, int)>, f: int, l: int)
    requires
        strictly_increasing(ks),
        ks.len() >= 2,
        nodes.len() == 2 * ks.len() - 1,
        spl.len() == ks.len() - 1,
        forall|t: int| 0 <= t < ks.len() ==> (#[trigger] nodes[ks.len() - 1 + t]) is Leaf,
        forall|i: int| 0 <= i < ks.len() - 1 ==> internal_links_ok(nodes, ks, #[trigger] spl[i], i),
        good_range(ks, f, l),
    ensures
        subtree_ok(nodes, ks, range_index(ks, f, l), f, l),
    decreases l - f,
{
    let n = ks.len() as int;
    let off = n - 1;
    let idx = range_index(ks, f, l);
    lemma_delta_bounds(ks, l, l + 1);
    assert(idx < off);
    assert(internal_links_ok(nodes, ks, spl[idx], idx));
    lemma_karras_range_of_good(ks, f, l, spl[idx].0, spl[idx].2);
    let s = spl[idx].1;
    lemma_split_children(ks, f, s, l);
    let left = nodes[idx]->left as int;
    let right = nodes[idx]->right as int;
    assert(child_split(left, off) == s);
    if s > f {
        lemma_build_tree(nodes, ks, spl, f, s);
        assert(left == s);
        assert(subtree_ok(nodes, ks, left, f, s));
    } else {
        assert(nodes[off + f] is Leaf);
        assert(left == off + f);
        assert(subtree_ok(nodes, ks, left, f, s));
    }
    if s + 1 < l {
        lemma_build_tree(nodes, ks, spl, s + 1, l);
        assert(right == s + 1);
        assert(subtree_ok(nodes, ks, right, s + 1, l));
    } else {
        assert(nodes[off + l] is Leaf);
        assert(right == off + l);
        assert(subtree_ok(nodes, ks, right, s + 1, l));
    }
    assert(is_karras_split(ks, f, s, l));
    assert(idx == f || idx == l);
}


/// The primitives of codes `codes`, listed in index order and then sorted stably
/// by code, have strictly increasing keys, and each is one of the primitives.
proof fn lemma_sorted_primitives(inp: Seq<MortonPrimitive>, mp: Seq<MortonPrimitive>, codes: Seq<u32>)
    requires
        2 * codes.len() <= u32::MAX,
        inp.len() == codes.len(),
        forall|t: int| 0 <= t < codes.len() ==> (#[trigger] inp[t]).code() == codes[t] && inp[t].index() == t,
        is_stable_sort(mp, inp, Seq::new(codes.len(), |i: int| codes[i] as int)),
    ensures
        forall|t: int| 0 <= t < codes.len() ==> (#[trigger] mp[t]).index() < codes.len() && mp[t].code() == codes[mp[t].index() as int],
        strictly_increasing(primitive_keys(mp)),
{
    let n = codes.len();
    let code_keys = Seq::new(n, |i: int| codes[i] as int);
    let ks = primitive_keys(mp);
    assert forall|t: int| 0 <= t < n implies (#[trigger] mp[t]).index() < n && mp[t].code() == codes[mp[t].index() as int] by {
        lemma_stable_sort_origin(mp, inp, code_keys, t);
    }
    assert forall|a: int, b: int| 0 <= a < b < n implies #[trigger] ks[a] < #[trigger] ks[b] by {
        lemma_stable_sort_order(mp, inp, code_keys, a, b);
        let (i, j) = choose|i: int, j: int|
            0 <= i < inp.len() && 0 <= j < inp.len() && mp[a] == #[trigger] inp[i] && mp[b] == #[trigger] inp[j]
                && lex_lt(code_keys[i], i, code_keys[j], j);
        lemma_key_value(codes[i], i as u64);
        lemma_key_value(codes[j], j as u64);
    }
}

/// The tree `built` with the sorted primitives `mp` in its leaves, once its boxes
/// are propagated into `fin`, is the hierarchy of `bboxes` and `codes`, and a
/// binary radix tree of the primitives' keys.
proof fn lemma_finished_build<B, U: Fn(&B, &B) -> B>(built: Seq<LinearBvhNode<B>>, fin: Seq<LinearBvhNode<B>>, inp: Seq<MortonPrimitive>, mp: Seq<MortonPrimitive>, bboxes: Seq<B>, codes: Seq<u32>, union: U)
    requires
        codes.len() >= 1,
        2 * codes.len() <= u32::MAX,
        bboxes.len() == codes.len(),
        forall|i: int| 0 <= i < codes.len() ==> #[trigger] codes[i] < 0x4000_0000,
        inp.len() == codes.len(),
        forall|t: int| 0 <= t < codes.len() ==> (#[trigger] inp[t]).code() == codes[t] && inp[t].index() == t,
        is_stable_sort(mp, inp, Seq::new(codes.len(), |i: int| codes[i] as int)),
        forall|t: int| 0 <= t < codes.len() ==> (#[trigger] mp[t]).index() < codes.len() && mp[t].code() == codes[mp[t].index() as int],
        strictly_increasing(primitive_keys(mp)),
        built.len() == 2 * codes.len() - 1,
        forall|t: int| 0 <= t < codes.len() ==> #[trigger] built[codes.len() - 1 + t] == (LinearBvhNode::Leaf { bbox: bboxes[mp[t].index() as int], primitive_index: mp[t].index() as u32 }),
        subtree_ok(built, primitive_keys(mp), 0, 0, codes.len() - 1),
        same_shape(built, fin),
        tree_boxes_ok(fin, 0, (codes.len() - 1) as nat, union),
        forall|x: int| 0 <= x < built.len() && !(tree_nodes(built, 0, (codes.len() - 1) as nat).contains(x) && built[x] is Internal)
            ==> #[trigger] fin[x] == built[x],
    ensures
        is_lbvh(fin, bboxes, codes, union),
        is_radix_tree(fin, primitive_keys(mp)),
{
    let n = codes.len();
    let off = n - 1;
    let ks = primitive_keys(mp);
    let code_keys = Seq::new(n, |i: int| codes[i] as int);
    lemma_propagated(built, fin, ks, (n - 1) as nat, union);
    let order = leaf_order(fin, n);
    assert forall|t: int| 0 <= t < n implies #[trigger] fin[off + t] == built[off + t] by {
        assert(built[off + t] is Leaf);
    }
    assert(order =~= mp.map_values(|p: MortonPrimitive| p.index() as int));
    assert(Seq::new(n, |i: int| i) =~= inp.map_values(|p: MortonPrimitive| p.index() as int));
    lemma_stable_sort_map(mp, inp, code_keys, |p: MortonPrimitive| p.index() as int);
    assert(ordered_keys(codes, order) =~= ks);
    assert forall|t: int| 0 <= t < n implies #[trigger] ks[t] < 0x4000_0000_0000_0000 by {
        lemma_key_value(mp[t].code(), mp[t].index() as u64);
    }
    assert forall|t: int| 0 <= t < n implies #[trigger] node_box(fin[n - 1 + t]) == bboxes[order[t]] by {
        assert(fin[off + t] == built[off + t]);
    }
}

impl<B: Copy> LinearBvh<B> {
    /// Builds the hierarchy of primitives with boxes `bboxes` and the Morton codes
    /// `codes` of their centres, one pass after another: sorts the primitives by
    /// code, puts them in the leaves, links the internal nodes by the construction
    /// of Karras, then sets each internal node's box to the `union` of its
    /// children's boxes. Internal nodes start with the box `empty`.
    pub fn build_seq<U: Fn(&B, &B) -> B>(bboxes: &Vec<B>, codes: &Vec<u32>, empty: B, union: &U) -> (bvh: Self)
        requires
            bboxes.len() == codes.len(),
            codes.len() <= isize::MAX / 4,
            2 * codes.len() <= u32::MAX,
            forall|i: int| 0 <= i < codes.len() ==> #[trigger] codes@[i] < 0x4000_0000,
            forall|a: &B, b: &B| #[trigger] call_requires(*union, (a, b)),
        ensures
            codes.len() == 0 ==> bvh@.len() == 0,
            codes.len() > 0 ==> is_lbvh(bvh@, bboxes@, codes@, *union),
    {
        let n = codes.len();
        if n == 0 {
            return Self::empty();
        }
        let mut morton_primitives: Vec<MortonPrimitive> = Vec::new();
        for i in 0..n
            invariant
                n == codes.len(),
                morton_primitives.len() == i,
                forall|t: int| 0 <= t < i ==> (#[trigger] morton_primitives@[t]).code() == codes@[t] && morton_primitives@[t].index() == t,
        {
            morton_primitives.push(MortonPrimitive { morton_code: codes[i], primitive_index: i });
        }
        let ghost inp = morton_primitives@;
        morton_primitives.radix_sort();
        let ghost mp = morton_primitives@;
        let ghost ks = primitive_keys(mp);
        let ghost code_keys = Seq::new(n as nat, |i: int| codes@[i] as int);
        proof {
            vstd::arithmetic::power2::lemma2_to64();
            assert(radix_passes(30) == 5);
            assert(pow2(6 * radix_passes(30)) == 0x4000_0000);
            assert forall|i: int| 0 <= i < n implies #[trigger] truncated_keys(primitive_codes(inp), 30)[i] == code_keys[i] by {
                assert(inp[i].code() == codes@[i]);
                assert(codes@[i] < 0x4000_0000);
            }
            assert(truncated_keys(primitive_codes(inp), 30) =~= code_keys);
            lemma_sorted_primitives(inp, mp, codes@);
        }

        let mut nodes: Vec<LinearBvhNode<B>> = Vec::new();
        for _k in 0..(2 * n - 1)
            invariant
                nodes.len() == _k,
                forall|x: int| 0 <= x < _k ==> #[trigger] nodes@[x] == (LinearBvhNode::Leaf { bbox: empty, primitive_index: 0 }),
        {
            nodes.push(LinearBvhNode::new_leaf(empty, 0));
        }

        let leaf_offset = n - 1;
        for leaf_idx in 0..n
            invariant
                n == codes.len(),
                n == bboxes.len(),
                morton_primitives@ == mp,
                mp.len() == n,
                leaf_offset == n - 1,
                nodes.len() == 2 * n - 1,
                forall|t: int| 0 <= t < n ==> (#[trigger] mp[t]).index() < n,
                forall|t: int| 0 <= t < n ==> (#[trigger] nodes@[leaf_offset + t]) is Leaf,
                forall|t: int| 0 <= t < leaf_idx ==> #[trigger] nodes@[leaf_offset + t] == (LinearBvhNode::Leaf { bbox: bboxes@[mp[t].index() as int], primitive_index: mp[t].index() as u32 }),
        {
            let node_idx = leaf_offset + leaf_idx;
            let prim_idx = morton_primitives[leaf_idx].primitive_index;
            nodes.set(node_idx, LinearBvhNode::new_leaf(bboxes[prim_idx], prim_idx));
        }

        let ghost mut spl: Seq<(int, int, int)> = Seq::empty();
        for i in 0..(n - 1)
            invariant
                n == codes.len(),
                2 * n <= u32::MAX,
                n <= isize::MAX / 4,
                morton_primitives@ == mp,
                ks == primitive_keys(mp),
                strictly_increasing(ks),
                mp.len() == n,
                leaf_offset == n - 1,
                nodes.len() == 2 * n - 1,
                spl.len() == i,
                forall|t: int| 0 <= t < n ==> (#[trigger] nodes@[leaf_offset + t]) == (LinearBvhNode::Leaf { bbox: bboxes@[mp[t].index() as int], primitive_index: mp[t].index() as u32 }),
                forall|k: int| 0 <= k < i ==> internal_links_ok(nodes@, ks, #[trigger] spl[k], k),
        {
            let (first, split, last) = Self::find_range_and_split(&morton_primitives, i);

            let left = if first == split { leaf_offset + split } else { split };

            let right = if split + 1 == last { leaf_offset + split + 1 } else { split + 1 };

            nodes.set(i, LinearBvhNode::new_internal(empty, left, right));
            proof {
                spl = spl.push((first as int, split as int, last as int));
                assert forall|k: int| 0 <= k < i + 1 implies internal_links_ok(nodes@, ks, #[trigger] spl[k], k) by {
                }
            }
        }

        proof {
            if n >= 2 {
                lemma_root_range(ks);
                lemma_build_tree(nodes@, ks, spl, 0, n - 1);
            }
        }
        let ghost built = nodes@;
        proof {
            lemma_karras_tree(built, ks, 0, 0, n - 1, (n - 1) as nat, *union);
        }
        let _ = Self::propagate_bboxes(&mut nodes, 0, union, Ghost((n - 1) as nat));
        proof {
            lemma_finished_build(built, nodes@, inp, mp, bboxes@, codes@, *union);
        }
        LinearBvh { nodes }
    }
}


/// Sorts the primitives stably by Morton code, in parallel: rayon's
/// `par_sort_by_key` with the code as key, which rayon documents as a stable sort
/// by the key (here a `u32`, ordered as numbers).
#[verifier::external_body]
fn par_sort_by_code(v: &mut Vec<MortonPrimitive>)
    ensures
        is_stable_sort(final(v)@, old(v)@, Seq::new(old(v)@.len(), |i: int| old(v)@[i].code() as int)),
{
    v.par_sort_by_key(|p| p.morton_code)
}

impl<B: Copy + Send + Sync> LinearBvh<B> {
    /// Builds the hierarchy that `build_seq` builds, with the primitives listed,
    /// sorted and the leaves and internal nodes made in parallel.
    pub fn build_par<U: Fn(&B, &B) -> B>(bboxes: &Vec<B>, codes: &Vec<u32>, empty: B, union: &U) -> (bvh: Self)
        requires
            bboxes.len() == codes.len(),
            codes.len() <= isize::MAX / 4,
            2 * codes.len() <= u32::MAX,
            forall|i: int| 0 <= i < codes.len() ==> #[trigger] codes@[i] < 0x4000_0000,
            forall|a: &B, b: &B| #[trigger] call_requires(*union, (a, b)),
        ensures
            codes.len() == 0 ==> bvh@.len() == 0,
            codes.len() > 0 ==> is_lbvh(bvh@, bboxes@, codes@, *union),
    {
        let n = codes.len();
        if n == 0 {
            return Self::empty();
        }
        let make_primitive = |i: usize| -> (p: MortonPrimitive)
            requires
                i < codes.len(),
            ensures
                p.code() == codes@[i as int] && p.index() == i,
            { MortonPrimitive { morton_code: codes[i], primitive_index: i } };
        let mut morton_primitives = par_map_indices(n, make_primitive);
        let ghost inp = morton_primitives@;
        proof {
            assert forall|t: int| 0 <= t < n implies (#[trigger] inp[t]).code() == codes@[t] && inp[t].index() == t by {
                assert(call_ensures(make_primitive, (t as usize,), inp[t]));
            }
        }
        par_sort_by_code(&mut morton_primitives);
        let ghost mp = morton_primitives@;
        let ghost ks = primitive_keys(mp);
        let ghost code_keys = Seq::new(n as nat, |i: int| codes@[i] as int);
        proof {
            assert(Seq::new(inp.len(), |i: int| inp[i].code() as int) =~= code_keys);
            lemma_sorted_primitives(inp, mp, codes@);
        }

        let leaf_offset = n - 1;
        let primitives = &morton_primitives;
        let make_internal = |i: usize| -> (node: LinearBvhNode<B>)
            requires
                i < n - 1,
                strictly_increasing(primitive_keys(primitives@)),
                primitives@.len() == n,
                2 <= n <= isize::MAX / 4,
                2 * n <= u32::MAX,
            ensures
                exists|spl: (int, int, int)| node_links_ok(node, primitive_keys(primitives@), spl, i as int),
            {
                let (first, split, last) = Self::find_range_and_split(primitives, i);
                let left = if first == split { leaf_offset + split } else { split };
                let right = if split + 1 == last { leaf_offset + split + 1 } else { split + 1 };
                let node = LinearBvhNode::new_internal(empty, left, right);
                assert(node_links_ok(node, primitive_keys(primitives@), (first as int, split as int, last as int), i as int));
                node
            };
        let make_leaf = |t: usize| -> (node: LinearBvhNode<B>)
            requires
                t < n,
                primitives@.len() == n,
                bboxes.len() == n,
                forall|u: int| 0 <= u < n ==> (#[trigger] primitives@[u]).index() < n,
            ensures
                node == (LinearBvhNode::Leaf { bbox: bboxes@[primitives@[t as int].index() as int], primitive_index: primitives@[t as int].index() as u32 }),
            {
                let prim_idx = primitives[t].primitive_index;
                LinearBvhNode::new_leaf(bboxes[prim_idx], prim_idx)
            };
        let mut nodes = par_map_indices(n - 1, make_internal);
        let leaves = par_map_indices(n, make_leaf);
        let ghost internal = nodes@;
        for t in 0..n
            invariant
                n == leaves.len(),
                leaf_offset == n - 1,
                internal.len() == n - 1,
                nodes.len() == leaf_offset + t,
                forall|k: int| 0 <= k < n - 1 ==> #[trigger] nodes@[k] == internal[k],
                forall|u: int| 0 <= u < t ==> #[trigger] nodes@[leaf_offset + u] == leaves@[u],
        {
            nodes.push(leaves[t]);
        }

        let ghost spl = Seq::new((n - 1) as nat, |i: int| choose|spl: (int, int, int)| node_links_ok(internal[i], ks, spl, i));
        proof {
            assert forall|t: int| 0 <= t < n implies #[trigger] nodes@[leaf_offset + t] == (LinearBvhNode::Leaf { bbox: bboxes@[mp[t].index() as int], primitive_index: mp[t].index() as u32 }) by {
                assert(call_ensures(make_leaf, (t as usize,), leaves@[t]));
            }
            assert forall|i: int| 0 <= i < n - 1 implies internal_links_ok(nodes@, ks, #[trigger] spl[i], i) by {
                assert(call_ensures(make_internal, (i as usize,), internal[i]));
                assert(nodes@[i] == internal[i]);
            }
            if n >= 2 {
                lemma_root_range(ks);
                lemma_build_tree(nodes@, ks, spl, 0, n - 1);
            }
        }
        let ghost built = nodes@;
        proof {
            lemma_karras_tree(built, ks, 0, 0, n - 1, (n - 1) as nat, *union);
        }
        let _ = Self::propagate_bboxes(&mut nodes, 0, union, Ghost((n - 1) as nat));
        proof {
            lemma_finished_build(built, nodes@, inp, mp, bboxes@, codes@, *union);
        }
        LinearBvh { nodes }
    }
}


/// What `hit` answers for the box `b`.
pub open spec fn hit_of<B, H: Fn(&B) -> bool>(hit: H, b: B) -> bool {
    choose|r: bool| call_ensures(hit, (&b,), r)
}

/// The primitive indices of the leaves of the tree over `[f, l]` rooted at `idx`
/// that `hit` accepts together with every box on the way from `idx`, in
/// depth-first order, left child first. Leaves start at `off`.
pub open spec fn subtree_hits<B, H: Fn(&B) -> bool>(nodes: Seq<LinearBvhNode<B>>, off: int, idx: int, f: int, l: int, hit: H) -> Seq<int>
    decreases l - f,
{
    if !hit_of(hit, node_box(nodes[idx])) {
        Seq::empty()
    } else if l <= f {
        seq![nodes[idx]->primitive_index as int]
    } else {
        let left = nodes[idx]->left as int;
        let right = nodes[idx]->right as int;
        let s = child_split(left, off);
        if f <= s < l {
            subtree_hits(nodes, off, left, f, s, hit) + subtree_hits(nodes, off, right, s + 1, l, hit)
        } else {
            Seq::empty()
        }
    }
}

/// The hits of the subtrees `frames[k - 1]`, ..., `frames[0]`, top of the stack first.
pub open spec fn stack_hits<B, H: Fn(&B) -> bool>(nodes: Seq<LinearBvhNode<B>>, off: int, frames: Seq<(int, int, int)>, k: nat, hit: H) -> Seq<int>
    decreases k,
{
    if k == 0 {
        Seq::empty()
    } else {
        let fr = frames[k - 1];
        subtree_hits(nodes, off, fr.0, fr.1, fr.2, hit) + stack_hits(nodes, off, frames, (k - 1) as nat, hit)
    }
}

/// The number of nodes of the subtrees `frames[0..k]`.
pub open spec fn stack_weight(frames: Seq<(int, int, int)>, k: nat) -> nat
    decreases k,
{
    if k == 0 {
        0
    } else {
        (2 * (frames[k - 1].2 - frames[k - 1].1) + 1) as nat + stack_weight(frames, (k - 1) as nat)
    }
}

/// How deep the range `[f, l]` lies: the prefix length its keys share, or 64 for
/// a single key.
pub open spec fn range_level(ks: Seq<u64>, f: int, l: int) -> int {
    if f < l {
        delta(ks, f, l)
    } else {
        64
    }
}

proof fn lemma_stack_prefix<B, H: Fn(&B) -> bool>(nodes: Seq<LinearBvhNode<B>>, off: int, fr1: Seq<(int, int, int)>, fr2: Seq<(int, int, int)>, k: nat, hit: H)
    requires
        k <= fr1.len(),
        k <= fr2.len(),
        forall|p: int| 0 <= p < k ==> fr1[p] == fr2[p],
    ensures
        stack_hits(nodes, off, fr1, k, hit) == stack_hits(nodes, off, fr2, k, hit),
        stack_weight(fr1, k) == stack_weight(fr2, k),
    decreases k,
{
    if k > 0 {
        lemma_stack_prefix(nodes, off, fr1, fr2, (k - 1) as nat, hit);
    }
}

impl<B: Copy> LinearBvh<B> {
    /// A copy of the hierarchy.
    pub fn clone(&self) -> (c: Self)
        ensures
            c@ == self@,
    {
        proof {
            use_type_invariant(self);
        }
        let mut nodes: Vec<LinearBvhNode<B>> = Vec::new();
        for i in 0..self.nodes.len()
            invariant
                nodes.len() == i,
                forall|k: int| 0 <= k < i ==> nodes@[k] == self.nodes@[k],
        {
            nodes.push(self.nodes[i]);
        }
        proof {
            assert(nodes@ =~= self.nodes@);
        }
        LinearBvh { nodes }
    }

    /// The nodes: the internal nodes first, the root at index 0, then the leaves.
    pub fn nodes(&self) -> (nodes: &Vec<LinearBvhNode<B>>)
        ensures
            nodes@ == self@,
    {
        &self.nodes
    }

    /// The box of the root, if the hierarchy has nodes.
    pub fn bounding_box(&self) -> (bbox: Option<B>)
        ensures
            bbox == if self@.len() > 0 { Some(node_box(self@[0])) } else { None::<B> },
    {
        if self.nodes.len() > 0 {
            Some(self.nodes[0].bounding_box())
        } else {
            None
        }
    }

    /// The primitive indices of the leaves whose box, and the box of every node on
    /// the way from the root, `hit` accepts, in depth-first order, left child first.
    /// The traversal keeps the nodes still to visit on a stack of 64 entries, which
    /// the depth of the tree never exceeds.
    #[verifier::rlimit(80)]
    #[verifier::spinoff_prover]
    pub fn intersect_ray<H: Fn(&B) -> bool>(&self, hit: &H) -> (hits: Vec<usize>)
        requires
            forall|b: &B| #[trigger] call_requires(*hit, (b,)),
            forall|b: &B, r1: bool, r2: bool|
                #![trigger call_ensures(*hit, (b,), r1), call_ensures(*hit, (b,), r2)]
                call_ensures(*hit, (b,), r1) && call_ensures(*hit, (b,), r2) ==> r1 == r2,
        ensures
            hits@.map_values(|x: usize| x as int) == if self@.len() == 0 {
                Seq::<int>::empty()
            } else {
                subtree_hits(self@, (self@.len() - 1) / 2, 0, 0, (self@.len() - 1) / 2, *hit)
            },
    {
        proof {
            use_type_invariant(self);
        }
        let mut hits: Vec<usize> = Vec::new();
        if self.nodes.len() == 0 {
            assert(hits@.map_values(|x: usize| x as int) =~= Seq::<int>::empty());
            return hits;
        }
        let ghost nodes = self.nodes@;
        let ghost ks = choose|ks: Seq<u64>| is_radix_tree(nodes, ks);
        let ghost off = ks.len() - 1;
        let ghost total = subtree_hits(nodes, off, 0, 0, off, *hit);
        let mut stack: Vec<usize> = Vec::new();
        for _k in 0..64
            invariant
                stack.len() == _k,
                forall|p: int| 0 <= p < _k ==> stack@[p] == 0,
        {
            stack.push(0);
        }
        let mut rsp: usize = 1;
        let ghost mut frames: Seq<(int, int, int)> = seq![(0, 0, off)];
        proof {
            if off > 0 {
                lemma_delta_top_bits(ks, 0, off);
            }
            assert(stack_hits(nodes, off, frames, 0, *hit) =~= Seq::<int>::empty());
            assert(hits@.map_values(|x: usize| x as int) =~= Seq::<int>::empty());
            assert(hits@.map_values(|x: usize| x as int) + stack_hits(nodes, off, frames, 1, *hit) =~= total);
        }

        while rsp > 0
            invariant
                nodes == self.nodes@,
                is_radix_tree(nodes, ks),
                off == ks.len() - 1,
                total == subtree_hits(nodes, off, 0, 0, off, *hit),
                forall|b: &B| #[trigger] call_requires(*hit, (b,)),
                forall|b: &B, r1: bool, r2: bool|
                    #![trigger call_ensures(*hit, (b,), r1), call_ensures(*hit, (b,), r2)]
                    call_ensures(*hit, (b,), r1) && call_ensures(*hit, (b,), r2) ==> r1 == r2,
                stack.len() == 64,
                rsp <= 63,
                frames.len() == rsp,
                forall|p: int| 0 <= p < rsp ==> #[trigger] stack@[p] == frames[p].0,
                forall|p: int| 0 <= p < rsp ==> subtree_ok(nodes, ks, #[trigger] frames[p].0, frames[p].1, frames[p].2),
                forall|p: int| 0 <= p < rsp ==> range_level(ks, #[trigger] frames[p].1, frames[p].2) >= p + 2,
                hits@.map_values(|x: usize| x as int) + stack_hits(nodes, off, frames, rsp as nat, *hit) == total,
            decreases stack_weight(frames, rsp as nat),
        {
            let ghost old_frames = frames;
            let ghost old_hits = hits@.map_values(|x: usize| x as int);
            rsp -= 1;
            let node_index = stack[rsp];
            let ghost fr = frames[rsp as int];
            let ghost (idx, f, l) = fr;
            proof {
                assert(subtree_ok(nodes, ks, frames[rsp as int].0, frames[rsp as int].1, frames[rsp as int].2));
                frames = frames.take(rsp as int);
                lemma_stack_prefix(nodes, off, frames, old_frames, rsp as nat, *hit);
                assert(stack_weight(old_frames, (rsp + 1) as nat) == (2 * (l - f) + 1) as nat + stack_weight(old_frames, rsp as nat));
                assert(stack_hits(nodes, off, old_frames, (rsp + 1) as nat, *hit) == subtree_hits(nodes, off, idx, f, l, *hit) + stack_hits(nodes, off, old_frames, rsp as nat, *hit));
            }
            let node = self.nodes[node_index];
            let bbox = node.bounding_box();
            let is_hit = hit(&bbox);
            proof {
                assert(call_ensures(*hit, (&bbox,), is_hit));
                assert(is_hit == hit_of(*hit, bbox));
            }
            if !is_hit {
                proof {
                    assert(subtree_hits(nodes, off, idx, f, l, *hit) =~= Seq::<int>::empty());
                    assert(old_hits + stack_hits(nodes, off, frames, rsp as nat, *hit) =~= total);
                }
                continue;
            }
            match node {
                LinearBvhNode::Leaf { primitive_index, .. } => {
                    hits.push(primitive_index as usize);
                    proof {
                        assert(l <= f);
                        assert(hits@.map_values(|x: usize| x as int) =~= old_hits.push(primitive_index as int));
                        assert(hits@.map_values(|x: usize| x as int) + stack_hits(nodes, off, frames, rsp as nat, *hit) =~= total);
                    }
                },
                LinearBvhNode::Internal { left, right, .. } => {
                    let ghost s = child_split(left as int, off);
                    proof {
                        assert(f < l);
                        lemma_split_deepens(ks, f, s, l);
                        lemma_delta_basics(ks, f, l);
                        lemma_delta_bounds(ks, f, l);
                        assert(range_level(ks, f, l) >= rsp + 2);
                        if s > f {
                            lemma_delta_basics(ks, f, s);
                        }
                        if s + 1 < l {
                            lemma_delta_basics(ks, s + 1, l);
                        }
                    }
                    stack.set(rsp, right as usize);
                    rsp += 2;
                    stack.set(rsp - 1, left as usize);
                    proof {
                        let pre = frames;
                        frames = frames.push((right as int, s + 1, l)).push((left as int, f, s));
                        lemma_stack_prefix(nodes, off, frames, pre, (rsp - 2) as nat, *hit);
                        assert(stack_hits(nodes, off, frames, (rsp - 1) as nat, *hit) == subtree_hits(nodes, off, right as int, s + 1, l, *hit) + stack_hits(nodes, off, frames, (rsp - 2) as nat, *hit));
                        assert(stack_weight(frames, (rsp - 1) as nat) == (2 * (l - (s + 1)) + 1) as nat + stack_weight(frames, (rsp - 2) as nat));
                        assert(stack_weight(frames, rsp as nat) == (2 * (s - f) + 1) as nat + stack_weight(frames, (rsp - 1) as nat));
                        assert(stack_hits(nodes, off, frames, rsp as nat, *hit) =~= subtree_hits(nodes, off, left as int, f, s, *hit)
                            + (subtree_hits(nodes, off, right as int, s + 1, l, *hit) + stack_hits(nodes, off, pre, (rsp - 2) as nat, *hit)));
                        assert(hits@.map_values(|x: usize| x as int) + stack_hits(nodes, off, frames, rsp as nat, *hit) =~= total);
                    }
                },
            }
        }
        proof {
            assert(hits@.map_values(|x: usize| x as int) =~= total);
        }
        hits
    }
}


/// `union` gives one result for each pair of boxes.
pub open spec fn union_is_deterministic<B, U: Fn(&B, &B) -> B>(union: U) -> bool {
    forall|a: &B, b: &B, r1: B, r2: B|
        #![trigger call_ensures(union, (a, b), r1), call_ensures(union, (a, b), r2)]
        call_ensures(union, (a, b), r1) && call_ensures(union, (a, b), r2) ==> r1 == r2
}

/// Every leaf of a range's tree stands where the range puts it.
proof fn lemma_subtree_leaves<B>(nodes: Seq<LinearBvhNode<B>>, ks: Seq<u64>, idx: int, f: int, l: int)
    requires
        subtree_ok(nodes, ks, idx, f, l),
    ensures
        forall|t: int| f <= t <= l ==> (#[trigger] nodes[ks.len() - 1 + t]) is Leaf,
    decreases l - f,
{
    if f < l {
        let left = nodes[idx]->left as int;
        let right = nodes[idx]->right as int;
        let s = child_split(left, ks.len() - 1);
        lemma_subtree_leaves(nodes, ks, left, f, s);
        lemma_subtree_leaves(nodes, ks, right, s + 1, l);
    }
}

/// Two trees over the same range with the same leaves and boxes made by the same
/// deterministic `union` agree on their root and on every internal node of the
/// range: `[f, l)` where the root stands at `f`, `(f, l]` where it stands at `l`.
proof fn lemma_subtree_unique<B, U: Fn(&B, &B) -> B>(n1: Seq<LinearBvhNode<B>>, n2: Seq<LinearBvhNode<B>>, ks: Seq<u64>, idx: int, f: int, l: int, union: U)
    requires
        strictly_increasing(ks),
        subtree_ok(n1, ks, idx, f, l),
        subtree_ok(n2, ks, idx, f, l),
        boxes_ok(n1, ks, idx, f, l, union),
        boxes_ok(n2, ks, idx, f, l, union),
        union_is_deterministic(union),
        forall|t: int| f <= t <= l ==> #[trigger] n1[ks.len() - 1 + t] == n2[ks.len() - 1 + t],
    ensures
        n1[idx] == n2[idx],
        forall|x: int| f < l && (if idx == f { f <= x < l } else { f < x <= l }) ==> #[trigger] n1[x] == n2[x],
    decreases l - f,
{
    let off = ks.len() - 1;
    if f < l {
        let left = n1[idx]->left as int;
        let right = n1[idx]->right as int;
        let s = child_split(left, off);
        let s2 = child_split(n2[idx]->left as int, off);
        lemma_split_unique(ks, f, s, s2, l);
        assert(n2[idx]->left == left && n2[idx]->right == right);
        lemma_subtree_unique(n1, n2, ks, left, f, s, union);
        lemma_subtree_unique(n1, n2, ks, right, s + 1, l, union);
        assert(node_box(n1[left]) == node_box(n2[left]));
        assert(node_box(n1[right]) == node_box(n2[right]));
        assert(node_box(n1[idx]) == node_box(n2[idx]));
        assert forall|x: int| f < l && (if idx == f { f <= x < l } else { f < x <= l }) implies #[trigger] n1[x] == n2[x] by {
            if x != idx && x <= s {
                assert(s > f && left == s);
            } else if x != idx {
                assert(s + 1 < l && right == s + 1);
            }
        }
    }
}

/// The hierarchy of given boxes and Morton codes is unique where `union` is
/// deterministic: `build_seq` and `build_par` build the same one.
pub proof fn lemma_lbvh_unique<B, U: Fn(&B, &B) -> B>(n1: Seq<LinearBvhNode<B>>, n2: Seq<LinearBvhNode<B>>, bboxes: Seq<B>, codes: Seq<u32>, union: U)
    requires
        codes.len() > 0,
        2 * codes.len() <= u32::MAX,
        union_is_deterministic(union),
        is_lbvh(n1, bboxes, codes, union),
        is_lbvh(n2, bboxes, codes, union),
    ensures
        n1 == n2,
{
    let n = codes.len();
    let off = n - 1;
    let id = Seq::new(n, |i: int| i);
    let code_keys = Seq::new(n, |i: int| codes[i] as int);
    let o1 = leaf_order(n1, n);
    let o2 = leaf_order(n2, n);
    lemma_stable_sort_unique(o1, o2, id, code_keys);
    let ks = ordered_keys(codes, o1);
    assert(ordered_keys(codes, o2) == ks);
    assert forall|t: int| 0 <= t < n implies 0 <= #[trigger] o1[t] < n by {
        lemma_stable_sort_origin(o1, id, code_keys, t);
    }
    assert forall|a: int, b: int| 0 <= a < b < n implies #[trigger] ks[a] < #[trigger] ks[b] by {
        lemma_stable_sort_order(o1, id, code_keys, a, b);
        let (i, j) = choose|i: int, j: int|
            0 <= i < id.len() && 0 <= j < id.len() && o1[a] == #[trigger] id[i] && o1[b] == #[trigger] id[j]
                && lex_lt(code_keys[i], i, code_keys[j], j);
        lemma_key_value(codes[i], i as u64);
        lemma_key_value(codes[j], j as u64);
    }
    lemma_subtree_leaves(n1, ks, 0, 0, n - 1);
    lemma_subtree_leaves(n2, ks, 0, 0, n - 1);
    assert forall|t: int| 0 <= t <= n - 1 implies #[trigger] n1[off + t] == n2[off + t] by {
        assert(n1[off + t] is Leaf && n2[off + t] is Leaf);
        assert(node_box(n1[off + t]) == bboxes[o1[t]]);
        assert(node_box(n2[off + t]) == bboxes[o2[t]]);
        assert(n1[off + t]->primitive_index as int == o1[t]);
        assert(n2[off + t]->primitive_index as int == o2[t]);
    }
    lemma_subtree_unique(n1, n2, ks, 0, 0, n - 1, union);
    assert forall|x: int| 0 <= x < n1.len() implies n1[x] == n2[x] by {
        if x >= off {
            assert(n1[off + (x - off)] == n2[off + (x - off)]);
        }
    }
    assert(n1 =~= n2);
}


/// Where `hit` accepts every box, a range's tree yields the primitives of its
/// leaves, in leaf order.
proof fn lemma_subtree_all_hits<B, H: Fn(&B) -> bool>(nodes: Seq<LinearBvhNode<B>>, ks: Seq<u64>, idx: int, f: int, l: int, hit: H)
    requires
        subtree_ok(nodes, ks, idx, f, l),
        forall|b: B| #[trigger] hit_of(hit, b),
    ensures
        subtree_hits(nodes, ks.len() - 1, idx, f, l, hit)
            == Seq::new((l - f + 1) as nat, |t: int| nodes[ks.len() - 1 + f + t]->primitive_index as int),
    decreases l - f,
{
    let off = ks.len() - 1;
    assert(hit_of(hit, node_box(nodes[idx])));
    if f < l {
        let left = nodes[idx]->left as int;
        let right = nodes[idx]->right as int;
        let s = child_split(left, off);
        lemma_subtree_all_hits(nodes, ks, left, f, s, hit);
        lemma_subtree_all_hits(nodes, ks, right, s + 1, l, hit);
        assert(subtree_hits(nodes, off, idx, f, l, hit)
            =~= Seq::new((l - f + 1) as nat, |t: int| nodes[off + f + t]->primitive_index as int));
    } else {
        assert(subtree_hits(nodes, off, idx, f, l, hit)
            =~= Seq::new((l - f + 1) as nat, |t: int| nodes[off + f + t]->primitive_index as int));
    }
}

/// A ray test that accepts every box lets the traversal of `intersect_ray` reach
/// every primitive of the hierarchy, each once: it yields the leaves' primitives
/// in leaf order, which lists each primitive index once.
pub proof fn lemma_all_hits<B, U: Fn(&B, &B) -> B, H: Fn(&B) -> bool>(nodes: Seq<LinearBvhNode<B>>, bboxes: Seq<B>, codes: Seq<u32>, union: U, hit: H)
    requires
        codes.len() > 0,
        is_lbvh(nodes, bboxes, codes, union),
        forall|b: B| #[trigger] hit_of(hit, b),
    ensures
        subtree_hits(nodes, (nodes.len() - 1) / 2, 0, 0, (nodes.len() - 1) / 2, hit) == leaf_order(nodes, codes.len()),
        leaf_order(nodes, codes.len()).to_multiset() == Seq::new(codes.len(), |i: int| i).to_multiset(),
{
    let n = codes.len();
    let ks = ordered_keys(codes, leaf_order(nodes, n));
    lemma_subtree_all_hits(nodes, ks, 0, 0, n - 1, hit);
    assert(subtree_hits(nodes, n - 1, 0, 0, n - 1, hit) =~= leaf_order(nodes, n));
    lemma_stable_sort_is_permutation(leaf_order(nodes, n), Seq::new(n, |i: int| i), Seq::new(n, |i: int| codes[i] as int));
}


/// The boxes of the leaves of a hierarchy over `n` primitives, in leaf order.
pub open spec fn leaf_boxes<B>(nodes: Seq<LinearBvhNode<B>>, n: nat) -> Seq<B> {
    Seq::new(n, |t: int| node_box(nodes[n - 1 + t]))
}

/// `u` is what `union` gives: every result of `union` on two boxes is `u` of them.
pub open spec fn union_is<B, U: Fn(&B, &B) -> B>(union: U, u: spec_fn(B, B) -> B) -> bool {
    forall|a: &B, b: &B, r: B| #[trigger] call_ensures(union, (a, b), r) ==> r == u(*a, *b)
}

/// Under an associative union, the box of a range's root is the union of the
/// leaf boxes of the range, from left to right.
proof fn lemma_subtree_union<B, U: Fn(&B, &B) -> B>(nodes: Seq<LinearBvhNode<B>>, ks: Seq<u64>, idx: int, f: int, l: int, union: U, u: spec_fn(B, B) -> B)
    requires
        subtree_ok(nodes, ks, idx, f, l),
        boxes_ok(nodes, ks, idx, f, l, union),
        union_is(union, u),
        is_associative(u),
    ensures
        node_box(nodes[idx]) == union_all(leaf_boxes(nodes, ks.len()).subrange(f, l + 1), u),
    decreases l - f,
{
    let lb = leaf_boxes(nodes, ks.len());
    lemma_karras_tree(nodes, ks, idx, f, l, (l - f) as nat, union);
    if f == l {
        assert(lb.subrange(f, l + 1) =~= seq![lb[f]]);
    } else {
        let off = ks.len() - 1;
        let left = nodes[idx]->left as int;
        let right = nodes[idx]->right as int;
        let s = child_split(left, off);
        lemma_subtree_union(nodes, ks, left, f, s, union, u);
        lemma_subtree_union(nodes, ks, right, s + 1, l, union, u);
        let a = lb.subrange(f, s + 1);
        let b = lb.subrange(s + 1, l + 1);
        lemma_union_all_concat(a, b, u);
        assert(a + b =~= lb.subrange(f, l + 1));
        assert(call_ensures(union, (&node_box(nodes[left]), &node_box(nodes[right])), node_box(nodes[idx])));
    }
}

/// Under a commutative and associative union, the box of the root of a hierarchy
/// is the union of the boxes of all its primitives.
pub proof fn lemma_root_box<B, U: Fn(&B, &B) -> B>(nodes: Seq<LinearBvhNode<B>>, bboxes: Seq<B>, codes: Seq<u32>, union: U, u: spec_fn(B, B) -> B)
    requires
        codes.len() > 0,
        bboxes.len() == codes.len(),
        is_lbvh(nodes, bboxes, codes, union),
        union_is(union, u),
        is_commutative(u),
        is_associative(u),
    ensures
        node_box(nodes[0]) == union_all(bboxes, u),
{
    let n = codes.len();
    let order = leaf_order(nodes, n);
    let ks = ordered_keys(codes, order);
    let id = Seq::new(n, |i: int| i);
    let code_keys = Seq::new(n, |i: int| codes[i] as int);
    let lb = leaf_boxes(nodes, n);
    lemma_subtree_union(nodes, ks, 0, 0, n - 1, union, u);
    assert(lb.subrange(0, n as int) =~= lb);
    let g = |i: int| bboxes[i];
    lemma_stable_sort_map(order, id, code_keys, g);
    assert(order.map_values(g) =~= lb);
    assert(id.map_values(g) =~= bboxes);
    lemma_stable_sort_is_permutation(lb, bboxes, code_keys);
    lemma_union_all_permutation(bboxes, lb, u);
}


/// The primitive indices of the leaves `off + f`, ..., `off + l` whose own box
/// `hit` accepts, in leaf order.
pub open spec fn leaf_hits<B, H: Fn(&B) -> bool>(nodes: Seq<LinearBvhNode<B>>, off: int, f: int, l: int, hit: H) -> Seq<int>
    decreases l - f + 1,
{
    if l < f {
        Seq::empty()
    } else {
        leaf_hits(nodes, off, f, l - 1, hit) + if hit_of(hit, node_box(nodes[off + l])) {
            seq![nodes[off + l]->primitive_index as int]
        } else {
            Seq::empty()
        }
    }
}

/// `hit` is monotone under `union`: where it accepts a box, it accepts every union
/// of that box with another.
pub open spec fn hit_is_monotone<B, U: Fn(&B, &B) -> B, H: Fn(&B) -> bool>(union: U, hit: H) -> bool {
    forall|a: &B, b: &B, r: B| #[trigger] call_ensures(union, (a, b), r) ==> (hit_of(hit, *a) ==> hit_of(hit, r)) && (hit_of(hit, *b) ==> hit_of(hit, r))
}

proof fn lemma_leaf_hits_split<B, H: Fn(&B) -> bool>(nodes: Seq<LinearBvhNode<B>>, off: int, f: int, s: int, l: int, hit: H)
    requires
        f <= s + 1 <= l + 1,
    ensures
        leaf_hits(nodes, off, f, l, hit) == leaf_hits(nodes, off, f, s, hit) + leaf_hits(nodes, off, s + 1, l, hit),
    decreases l - s,
{
    if l == s {
        assert(leaf_hits(nodes, off, s + 1, l, hit) =~= Seq::<int>::empty());
        assert(leaf_hits(nodes, off, f, s, hit) + Seq::<int>::empty() =~= leaf_hits(nodes, off, f, s, hit));
    } else {
        lemma_leaf_hits_split(nodes, off, f, s, l - 1, hit);
        let tail = if hit_of(hit, node_box(nodes[off + l])) {
            seq![nodes[off + l]->primitive_index as int]
        } else {
            Seq::empty()
        };
        assert(leaf_hits(nodes, off, f, s, hit) + leaf_hits(nodes, off, s + 1, l - 1, hit) + tail
            =~= leaf_hits(nodes, off, f, s, hit) + (leaf_hits(nodes, off, s + 1, l - 1, hit) + tail));
    }
}

proof fn lemma_leaf_hits_none<B, H: Fn(&B) -> bool>(nodes: Seq<LinearBvhNode<B>>, off: int, f: int, l: int, hit: H)
    requires
        forall|t: int| f <= t <= l ==> !hit_of(hit, #[trigger] node_box(nodes[off + t])),
    ensures
        leaf_hits(nodes, off, f, l, hit) == Seq::<int>::empty(),
    decreases l - f + 1,
{
    if f <= l {
        lemma_leaf_hits_none(nodes, off, f, l - 1, hit);
        assert(leaf_hits(nodes, off, f, l, hit) =~= Seq::<int>::empty());
    }
}

/// Under a monotone test, a tree's root is accepted where one of its leaves is.
proof fn lemma_leaf_hit_reaches_root<B, U: Fn(&B, &B) -> B, H: Fn(&B) -> bool>(nodes: Seq<LinearBvhNode<B>>, ks: Seq<u64>, idx: int, f: int, l: int, union: U, hit: H, t: int)
    requires
        subtree_ok(nodes, ks, idx, f, l),
        boxes_ok(nodes, ks, idx, f, l, union),
        hit_is_monotone(union, hit),
        f <= t <= l,
        hit_of(hit, node_box(nodes[ks.len() - 1 + t])),
    ensures
        hit_of(hit, node_box(nodes[idx])),
    decreases l - f,
{
    if f < l {
        let off = ks.len() - 1;
        let left = nodes[idx]->left as int;
        let right = nodes[idx]->right as int;
        let s = child_split(left, off);
        assert(call_ensures(union, (&node_box(nodes[left]), &node_box(nodes[right])), node_box(nodes[idx])));
        if t <= s {
            lemma_leaf_hit_reaches_root(nodes, ks, left, f, s, union, hit, t);
        } else {
            lemma_leaf_hit_reaches_root(nodes, ks, right, s + 1, l, union, hit, t);
        }
    }
}

proof fn lemma_subtree_hits_monotone<B, U: Fn(&B, &B) -> B, H: Fn(&B) -> bool>(nodes: Seq<LinearBvhNode<B>>, ks: Seq<u64>, idx: int, f: int, l: int, union: U, hit: H)
    requires
        subtree_ok(nodes, ks, idx, f, l),
        boxes_ok(nodes, ks, idx, f, l, union),
        hit_is_monotone(union, hit),
    ensures
        subtree_hits(nodes, ks.len() - 1, idx, f, l, hit) == leaf_hits(nodes, ks.len() - 1, f, l, hit),
    decreases l - f,
{
    let off = ks.len() - 1;
    if !hit_of(hit, node_box(nodes[idx])) {
        assert forall|t: int| f <= t <= l implies !hit_of(hit, #[trigger] node_box(nodes[off + t])) by {
            if hit_of(hit, node_box(nodes[off + t])) {
                lemma_leaf_hit_reaches_root(nodes, ks, idx, f, l, union, hit, t);
            }
        }
        lemma_leaf_hits_none(nodes, off, f, l, hit);
    } else if f == l {
        assert(leaf_hits(nodes, off, f, f - 1, hit) =~= Seq::<int>::empty());
        assert(leaf_hits(nodes, off, f, l, hit) =~= seq![nodes[idx]->primitive_index as int]);
    } else {
        let left = nodes[idx]->left as int;
        let right = nodes[idx]->right as int;
        let s = child_split(left, off);
        lemma_subtree_hits_monotone(nodes, ks, left, f, s, union, hit);
        lemma_subtree_hits_monotone(nodes, ks, right, s + 1, l, union, hit);
        lemma_leaf_hits_split(nodes, off, f, s, l, hit);
    }
}

/// Under a ray test that accepts every union of a box it accepts, the traversal of
/// `intersect_ray` misses no leaf: it yields exactly the primitives whose own box
/// the test accepts, in leaf order.
pub proof fn lemma_monotone_hits<B, U: Fn(&B, &B) -> B, H: Fn(&B) -> bool>(nodes: Seq<LinearBvhNode<B>>, bboxes: Seq<B>, codes: Seq<u32>, union: U, hit: H)
    requires
        codes.len() > 0,
        is_lbvh(nodes, bboxes, codes, union),
        hit_is_monotone(union, hit),
    ensures
        subtree_hits(nodes, (nodes.len() - 1) / 2, 0, 0, (nodes.len() - 1) / 2, hit)
            == leaf_hits(nodes, (nodes.len() - 1) / 2, 0, (nodes.len() - 1) / 2, hit),
{
    let n = codes.len();
    let ks = ordered_keys(codes, leaf_order(nodes, n));
    lemma_subtree_hits_monotone(nodes, ks, 0, 0, n - 1, union, hit);
}


/// The key of a primitive puts its Morton code above its index: for an index
/// below 2^32 it is `code * 2^32 + index`, so keys order primitives by code and
/// then by index.
pub proof fn lemma_primitive_key(p: MortonPrimitive)
    requires
        p.index() < 0x1_0000_0000,
    ensures
        p.key() == p.code() * 0x1_0000_0000 + p.index(),
        p.key() == code_index_key(p.code(), p.index() as int),
{
    lemma_key_value(p.code(), p.index() as u64);
}


/// Radix-sorting primitives whose Morton codes lie below 2^30 rearranges them
/// into non-decreasing order of code, keeping primitives of equal code in their
/// input order.
pub proof fn lemma_radix_sorted_primitives(out: Seq<MortonPrimitive>, inp: Seq<MortonPrimitive>)
    requires
        is_stable_sort(out, inp, truncated_keys(primitive_codes(inp), 30)),
        forall|i: int| 0 <= i < inp.len() ==> #[trigger] inp[i].code() < 0x4000_0000,
    ensures
        is_stable_sort(out, inp, Seq::new(inp.len(), |i: int| inp[i].code() as int)),
        forall|p: int, q: int| 0 <= p < q < out.len() ==> (#[trigger] out[p]).code() <= (#[trigger] out[q]).code(),
        out.to_multiset() == inp.to_multiset(),
{
    vstd::arithmetic::power2::lemma2_to64();
    assert(radix_passes(30) == 5);
    let keys = Seq::new(inp.len(), |i: int| inp[i].code() as int);
    assert forall|i: int| 0 <= i < inp.len() implies #[trigger] truncated_keys(primitive_codes(inp), 30)[i] == keys[i] by {
        vstd::arithmetic::div_mod::lemma_small_mod(inp[i].code() as nat, pow2(30));
    }
    assert(truncated_keys(primitive_codes(inp), 30) =~= keys);
    lemma_stable_sort_is_sorted(out, inp, keys, |p: MortonPrimitive| p.code() as int);
    lemma_stable_sort_is_permutation(out, inp, keys);
}

} // verus!
