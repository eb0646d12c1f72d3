use raytrace::bvh::{BvhLayout, Traversal, Visit};

/// Deterministic pseudo-random hit distances; `None` is a miss.
fn distances(n: usize, seed: u64) -> Vec<Option<f32>> {
    let mut state = seed;
    (0..n)
        .map(|_| {
            state = state.wrapping_mul(6364136223846793005).wrapping_add(1442695040888963407);
            let x = (state >> 40) as f32 / (1u64 << 24) as f32;
            if x < 0.3 {
                None
            } else {
                Some(100.0 * x)
            }
        })
        .collect()
}

/// The nearest hit through the hierarchy: a node's bound is the nearest hit
/// of its run (a valid lower bound, as a box distance is), and nodes no
/// nearer than the best hit so far are pruned.
fn walk_nearest(d: &[Option<f32>]) -> Option<(usize, f32)> {
    let layout = BvhLayout::new(d.len());
    let bound = |node: usize| {
        let n = layout.node(node);
        d[n.first..n.first + n.count]
            .iter()
            .flatten()
            .fold(f32::INFINITY, |a, &b| a.min(b))
    };
    let mut best: Option<(usize, f32)> = None;
    let mut t_max = f32::INFINITY;
    let mut walk = Traversal::new(&layout);
    while let Some(v) = walk.next() {
        match v {
            Visit::Leaf { first, count } => {
                for p in first..first + count {
                    if let Some(t) = d[p] {
                        if t < t_max {
                            t_max = t;
                            best = Some((p, t));
                        }
                    }
                }
            }
            Visit::Interior { left, right } => {
                let (l, r) = (bound(left), bound(right));
                walk.descend(l < r, l < t_max, r < t_max);
            }
        }
    }
    best
}

fn scan_nearest(d: &[Option<f32>]) -> Option<(usize, f32)> {
    let mut best: Option<(usize, f32)> = None;
    for (p, t) in d.iter().enumerate() {
        if let Some(t) = *t {
            if best.map_or(true, |(_, b)| t < b) {
                best = Some((p, t));
            }
        }
    }
    best
}

#[test]
fn walk_agrees_with_linear_scan() {
    for n in [0usize, 1, 2, 3, 10, 257, 5000] {
        for seed in 0..5u64 {
            let d = distances(n, seed);
            let walked = walk_nearest(&d).map(|(_, t)| t);
            let scanned = scan_nearest(&d).map(|(_, t)| t);
            assert_eq!(walked, scanned, "n = {n}, seed = {seed}");
        }
    }
}

#[test]
fn single_and_two_primitive_sets() {
    assert_eq!(walk_nearest(&[Some(2.5)]), Some((0, 2.5)));
    assert_eq!(walk_nearest(&[None]), None);
    assert_eq!(walk_nearest(&[Some(4.0), Some(1.0)]), Some((1, 1.0)));
    assert_eq!(walk_nearest(&[Some(1.0), None]), Some((0, 1.0)));
    assert_eq!(walk_nearest(&[]), None);
}

#[test]
fn pending_node_is_dropped_by_next() {
    let layout = BvhLayout::new(3);
    let mut walk = Traversal::new(&layout);
    assert!(matches!(walk.next(), Some(Visit::Interior { .. })));
    // no descend: the root's children are never offered
    assert_eq!(walk.next(), None);
}
