use raytrace::noise::{PermutationTables, POINT_COUNT};

#[test]
fn lattice_index_is_a_slot() {
    let t = PermutationTables::new();
    for i in -300i64..300 {
        assert!(t.lattice_index(i, 2 * i, -i) < POINT_COUNT);
    }
}

#[test]
fn lattice_index_is_periodic() {
    let t = PermutationTables::new();
    for i in 0i64..256 {
        assert_eq!(t.lattice_index(i, 5, 9), t.lattice_index(i + 256, 5, 9));
        assert_eq!(t.lattice_index(i, 5, 9), t.lattice_index(i - 512, 5 + 256, 9 - 256));
    }
    assert_eq!(t.lattice_index(-1, 0, 0), t.lattice_index(255, 0, 0));
    assert_eq!(t.lattice_index(i64::MIN, 0, 0), t.lattice_index(0, 0, 0));
}

#[test]
fn each_axis_is_a_permutation() {
    let t = PermutationTables::new();
    for (j, k) in [(0i64, 0i64), (3, 200), (-7, 1000)] {
        let mut seen = vec![false; POINT_COUNT];
        for i in 0i64..256 {
            let s = t.lattice_index(i, j, k);
            assert!(!seen[s]);
            seen[s] = true;
        }
        let mut seen = vec![false; POINT_COUNT];
        for i in 0i64..256 {
            let s = t.lattice_index(j, k, i);
            assert!(!seen[s]);
            seen[s] = true;
        }
    }
}

#[test]
fn tables_are_shuffled() {
    // The shuffle leaves no entry in place, so no table is the identity
    // (nor any other xor-translation of it).
    let t = PermutationTables::new();
    let base = t.lattice_index(0, 0, 0);
    assert!((0i64..256).any(|i| (t.lattice_index(i, 0, 0) ^ base) != i as usize));
    assert!((0i64..256).any(|j| (t.lattice_index(0, j, 0) ^ base) != j as usize));
    assert!((0i64..256).any(|k| (t.lattice_index(0, 0, k) ^ base) != k as usize));
}
