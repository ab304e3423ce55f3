use sotte::{LinearBvh, LinearBvhNode};

/// A box on the line: `(min, max)`.
type Interval = (i64, i64);

fn union(a: &Interval, b: &Interval) -> Interval {
    (a.0.min(b.0), a.1.max(b.1))
}

fn leaf_indices(bvh: &LinearBvh<Interval>) -> Vec<u32> {
    let nodes = bvh.nodes();
    let n = (nodes.len() + 1) / 2;
    nodes[n - 1..]
        .iter()
        .map(|node| match node {
            LinearBvhNode::Leaf { primitive_index, .. } => *primitive_index,
            LinearBvhNode::Internal { .. } => panic!("internal node among the leaves"),
        })
        .collect()
}

#[test]
fn empty_hierarchy_has_no_nodes() {
    let bvh: LinearBvh<Interval> = LinearBvh::empty();
    assert!(bvh.nodes().is_empty());
    assert_eq!(bvh.bounding_box(), None);
    assert!(bvh.intersect_ray(&|_b: &Interval| true).is_empty());
    let built = LinearBvh::build_seq(&vec![], &vec![], (0, 0), &union);
    assert!(built.nodes().is_empty());
}

#[test]
fn single_primitive_is_a_leaf() {
    let bvh = LinearBvh::build_seq(&vec![(2, 5)], &vec![123], (0, 0), &union);
    assert_eq!(bvh.nodes().len(), 1);
    assert_eq!(bvh.nodes()[0], LinearBvhNode::Leaf { bbox: (2, 5), primitive_index: 0 });
    assert_eq!(bvh.bounding_box(), Some((2, 5)));
}

#[test]
fn leaves_follow_the_codes() {
    let boxes: Vec<Interval> = vec![(30, 31), (10, 11), (20, 21), (0, 1)];
    let codes = vec![3, 1, 2, 0];
    let bvh = LinearBvh::build_seq(&boxes, &codes, (0, 0), &union);
    assert_eq!(bvh.nodes().len(), 7);
    assert_eq!(leaf_indices(&bvh), vec![3, 1, 2, 0]);
    assert_eq!(bvh.bounding_box(), Some((0, 31)));
}

#[test]
fn equal_codes_keep_the_primitive_order() {
    let boxes: Vec<Interval> = vec![(0, 1), (2, 3), (4, 5)];
    let codes = vec![7, 7, 7];
    let bvh = LinearBvh::build_seq(&boxes, &codes, (0, 0), &union);
    assert_eq!(leaf_indices(&bvh), vec![0, 1, 2]);
}

#[test]
fn radix_tree_of_four_codes() {
    // Codes 0b00, 0b01, 0b10, 0b11: the root splits them into two pairs.
    let boxes: Vec<Interval> = vec![(0, 1), (1, 2), (2, 3), (3, 4)];
    let codes = vec![0, 1, 2, 3];
    let bvh = LinearBvh::build_seq(&boxes, &codes, (0, 0), &union);
    let nodes = bvh.nodes();
    assert_eq!(nodes[0], LinearBvhNode::Internal { bbox: (0, 4), left: 1, right: 2 });
    assert_eq!(nodes[1], LinearBvhNode::Internal { bbox: (0, 2), left: 3, right: 4 });
    assert_eq!(nodes[2], LinearBvhNode::Internal { bbox: (2, 4), left: 5, right: 6 });
}

#[test]
fn internal_boxes_are_unions_of_their_children() {
    fastrand::seed(11);
    let n = 200;
    let boxes: Vec<Interval> = (0..n).map(|_| {
        let a = fastrand::i64(-1000..1000);
        (a, a + fastrand::i64(0..50))
    }).collect();
    let codes: Vec<u32> = (0..n).map(|_| fastrand::u32(..1 << 30)).collect();
    let bvh = LinearBvh::build_seq(&boxes, &codes, (0, 0), &union);
    let nodes = bvh.nodes();
    assert_eq!(nodes.len(), 2 * n - 1);
    let mut reached = vec![false; nodes.len()];
    let mut todo = vec![0usize];
    while let Some(i) = todo.pop() {
        reached[i] = true;
        if let LinearBvhNode::Internal { bbox, left, right } = nodes[i] {
            let l = nodes[left as usize];
            let r = nodes[right as usize];
            let lb = match l { LinearBvhNode::Internal { bbox, .. } | LinearBvhNode::Leaf { bbox, .. } => bbox };
            let rb = match r { LinearBvhNode::Internal { bbox, .. } | LinearBvhNode::Leaf { bbox, .. } => bbox };
            assert_eq!(bbox, union(&lb, &rb));
            todo.push(left as usize);
            todo.push(right as usize);
        }
    }
    assert!(reached.iter().all(|r| *r), "every node hangs from the root");
    let mut sorted_codes: Vec<u32> = leaf_indices(&bvh).iter().map(|i| codes[*i as usize]).collect();
    let copy = sorted_codes.clone();
    sorted_codes.sort();
    assert_eq!(copy, sorted_codes);
}

#[test]
fn parallel_build_matches_sequential_build() {
    fastrand::seed(12);
    let n = 1000;
    let boxes: Vec<Interval> = (0..n).map(|i| (i as i64, i as i64 + 3)).collect();
    let codes: Vec<u32> = (0..n).map(|_| fastrand::u32(..1 << 30)).collect();
    let a = LinearBvh::build_seq(&boxes, &codes, (0, 0), &union);
    let b = LinearBvh::build_par(&boxes, &codes, (0, 0), &union);
    assert_eq!(a.nodes(), b.nodes());
}

#[test]
fn traversal_returns_the_hit_leaves_in_order() {
    let boxes: Vec<Interval> = vec![(0, 1), (1, 2), (2, 3), (3, 4)];
    let codes = vec![0, 1, 2, 3];
    let bvh = LinearBvh::build_seq(&boxes, &codes, (0, 0), &union);
    assert_eq!(bvh.intersect_ray(&|_b: &Interval| true), vec![0, 1, 2, 3]);
    // A query point at 2.5 only meets the boxes that contain it.
    let hits = bvh.intersect_ray(&|b: &Interval| b.0 * 2 <= 5 && 5 <= b.1 * 2);
    assert_eq!(hits, vec![2]);
    assert!(bvh.intersect_ray(&|_b: &Interval| false).is_empty());
}

#[test]
fn cloned_hierarchy_has_the_same_nodes() {
    let bvh = LinearBvh::build_seq(&vec![(0, 1), (5, 6)], &vec![9, 4], (0, 0), &union);
    let copy = bvh.clone();
    assert_eq!(copy.nodes(), bvh.nodes());
}

#[test]
fn node_constructors_keep_their_fields() {
    let leaf: LinearBvhNode<Interval> = LinearBvhNode::new_leaf((1, 2), 7);
    assert_eq!(leaf, LinearBvhNode::Leaf { bbox: (1, 2), primitive_index: 7 });
    assert_eq!(leaf.bounding_box(), (1, 2));
    let node: LinearBvhNode<Interval> = LinearBvhNode::new_internal((0, 9), 3, 4);
    assert_eq!(node, LinearBvhNode::Internal { bbox: (0, 9), left: 3, right: 4 });
    assert_eq!(node.bounding_box(), (0, 9));
}

#[test]
fn accepting_every_box_yields_every_primitive_once() {
    fastrand::seed(13);
    let n = 300;
    let boxes: Vec<Interval> = (0..n).map(|i| (i as i64, i as i64 + 1)).collect();
    let codes: Vec<u32> = (0..n).map(|_| fastrand::u32(..1 << 30)).collect();
    let bvh = LinearBvh::build_par(&boxes, &codes, (0, 0), &union);
    let hits = bvh.intersect_ray(&|_b: &Interval| true);
    let leaves: Vec<usize> = leaf_indices(&bvh).iter().map(|i| *i as usize).collect();
    assert_eq!(hits, leaves);
    let mut sorted = hits.clone();
    sorted.sort();
    assert_eq!(sorted, (0..n).collect::<Vec<usize>>());
}

#[test]
fn root_box_is_the_union_of_all_boxes() {
    fastrand::seed(14);
    let n = 257;
    let boxes: Vec<Interval> = (0..n).map(|_| {
        let a = fastrand::i64(-5000..5000);
        (a, a + fastrand::i64(0..100))
    }).collect();
    let codes: Vec<u32> = (0..n).map(|_| fastrand::u32(..1 << 30)).collect();
    let all = boxes[1..].iter().fold(boxes[0], |acc, b| union(&acc, b));
    let seq = LinearBvh::build_seq(&boxes, &codes, (0, 0), &union);
    let par = LinearBvh::build_par(&boxes, &codes, (0, 0), &union);
    assert_eq!(seq.bounding_box(), Some(all));
    assert_eq!(par.bounding_box(), Some(all));
}

#[test]
fn a_containment_test_misses_no_leaf() {
    fastrand::seed(15);
    let n = 400;
    let boxes: Vec<Interval> = (0..n).map(|_| {
        let a = fastrand::i64(0..1000);
        (a, a + fastrand::i64(0..60))
    }).collect();
    let codes: Vec<u32> = (0..n).map(|_| fastrand::u32(..1 << 30)).collect();
    let bvh = LinearBvh::build_seq(&boxes, &codes, (0, 0), &union);
    for p in [0i64, 137, 500, 999, 1100] {
        let hits = bvh.intersect_ray(&|b: &Interval| b.0 <= p && p <= b.1);
        let expected: Vec<usize> = leaf_indices(&bvh)
            .iter()
            .map(|i| *i as usize)
            .filter(|i| boxes[*i].0 <= p && p <= boxes[*i].1)
            .collect();
        assert_eq!(hits, expected);
    }
}
