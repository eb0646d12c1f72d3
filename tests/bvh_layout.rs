use raytrace::bvh::{BvhLayout, Node, Traversal, Visit, MAX_BVH_DEPTH, STACK_CAPACITY};

fn leaves(layout: &BvhLayout) -> Vec<Node> {
    (0..layout.len())
        .map(|i| layout.node(i))
        .filter(|n| n.children.is_none())
        .collect()
}

/// Walks the whole layout, pruning nothing, and returns the leaves in the
/// order they were visited.
fn full_walk(layout: &BvhLayout, left_nearer: bool) -> Vec<(usize, usize)> {
    let mut walk = Traversal::new(layout);
    let mut visited = Vec::new();
    while let Some(v) = walk.next() {
        match v {
            Visit::Leaf { first, count } => visited.push((first, count)),
            Visit::Interior { .. } => walk.descend(left_nearer, true, true),
        }
    }
    visited
}

#[test]
fn empty_layout_is_one_empty_leaf() {
    let layout = BvhLayout::new(0);
    assert_eq!(layout.len(), 1);
    assert_eq!(
        layout.node(0),
        Node { first: 0, count: 0, depth: 0, children: None }
    );
    assert_eq!(layout.max_depth(), 0);
}

#[test]
fn single_primitive_is_a_leaf() {
    let layout = BvhLayout::new(1);
    assert_eq!(layout.len(), 1);
    assert_eq!(
        layout.node(0),
        Node { first: 0, count: 1, depth: 0, children: None }
    );
}

#[test]
fn two_primitives_split_into_two_leaves() {
    let layout = BvhLayout::new(2);
    assert_eq!(layout.len(), 3);
    assert_eq!(layout.node(0).children, Some(1));
    assert_eq!(layout.node(1), Node { first: 0, count: 1, depth: 1, children: None });
    assert_eq!(layout.node(2), Node { first: 1, count: 1, depth: 1, children: None });
    assert_eq!(layout.max_depth(), 1);
}

#[test]
fn median_split_of_five() {
    let layout = BvhLayout::new(5);
    // root: children 1 (two primitives) and 2 (three primitives)
    assert_eq!(layout.node(0).children, Some(1));
    assert_eq!((layout.node(1).first, layout.node(1).count), (0, 2));
    assert_eq!((layout.node(2).first, layout.node(2).count), (2, 3));
    // the left half is split before the right half is visited
    assert_eq!(layout.node(1).children, Some(3));
    assert_eq!(layout.node(2).children, Some(5));
    assert_eq!((layout.node(5).first, layout.node(5).count), (2, 1));
    assert_eq!((layout.node(6).first, layout.node(6).count), (3, 2));
    assert_eq!(layout.len(), 9);
}

#[test]
fn leaves_partition_the_primitives() {
    for n in [0usize, 1, 2, 3, 7, 16, 100, 1000] {
        let layout = BvhLayout::new(n);
        assert_eq!(layout.primitive_count(), n);
        let mut hits = vec![0u32; n];
        for leaf in leaves(&layout) {
            for p in leaf.first..leaf.first + leaf.count {
                hits[p] += 1;
            }
        }
        assert!(hits.iter().all(|&h| h == 1), "n = {n}");
    }
}

#[test]
fn depth_is_capped() {
    let n = 200_000;
    let layout = BvhLayout::new(n);
    assert_eq!(layout.max_depth(), MAX_BVH_DEPTH);
    for leaf in leaves(&layout) {
        assert!(leaf.count <= 1 || leaf.depth == MAX_BVH_DEPTH);
    }
}

#[test]
fn full_walk_visits_every_leaf_once() {
    for n in [1usize, 2, 5, 64, 1000] {
        let layout = BvhLayout::new(n);
        let mut visited = full_walk(&layout, true);
        assert_eq!(visited.len(), leaves(&layout).len());
        visited.sort();
        let covered: usize = visited.iter().map(|&(_, c)| c).sum();
        assert_eq!(covered, n);
        for w in visited.windows(2) {
            assert_eq!(w[0].0 + w[0].1, w[1].0);
        }
    }
}

#[test]
fn nearer_child_is_taken_first() {
    let layout = BvhLayout::new(4);
    // left nearer: primitives come out in order
    let order: Vec<usize> = full_walk(&layout, true).iter().map(|&(f, _)| f).collect();
    assert_eq!(order, vec![0, 1, 2, 3]);
    // right nearer: in reverse
    let order: Vec<usize> = full_walk(&layout, false).iter().map(|&(f, _)| f).collect();
    assert_eq!(order, vec![3, 2, 1, 0]);
}

#[test]
fn children_out_of_reach_are_pruned() {
    let layout = BvhLayout::new(4);
    let mut walk = Traversal::new(&layout);
    assert_eq!(walk.next(), Some(Visit::Interior { left: 1, right: 2 }));
    // only the right child is within reach
    walk.descend(true, false, true);
    assert_eq!(walk.next(), Some(Visit::Interior { left: 5, right: 6 }));
    walk.descend(true, true, false);
    assert_eq!(walk.next(), Some(Visit::Leaf { first: 2, count: 1 }));
    assert_eq!(walk.next(), None);
    assert_eq!(walk.next(), None);
}

#[test]
fn deepest_layout_fits_the_stack() {
    assert_eq!(STACK_CAPACITY, MAX_BVH_DEPTH + 1);
    let layout = BvhLayout::new(1 << 17);
    let visited = full_walk(&layout, false);
    let covered: usize = visited.iter().map(|&(_, c)| c).sum();
    assert_eq!(covered, 1 << 17);
}
