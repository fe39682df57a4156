//! Coarsening of weighted spring graphs, on concrete values.

use setreplace::coarsening::{coarsen, merge_weighted, spring_weights, CoarsePlan};

#[test]
fn path_collapses_by_matching() {
    let springs = [(0, 1, 1), (1, 2, 1), (2, 3, 1)];
    let c = coarsen(4, &springs, &[1, 1, 1, 1]).unwrap();
    assert_eq!(c.n, 2);
    assert_eq!(c.weights, vec![2, 2]);
    assert_eq!(c.springs, vec![(0, 1, 1)]);
    match c.plan {
        CoarsePlan::Matching { coarse_of } => assert_eq!(coarse_of, vec![0, 0, 1, 1]),
        CoarsePlan::IndependentSet { .. } => panic!("expected a matching"),
    }
}

#[test]
fn matching_prefers_light_vertices_then_heavy_springs() {
    let springs = [(0, 1, 1), (0, 2, 1), (0, 3, 2)];
    let c = coarsen(4, &springs, &[1, 3, 1, 1]).unwrap();
    assert_eq!(c.n, 3);
    assert_eq!(c.weights, vec![2, 3, 1]);
    assert_eq!(c.springs, vec![(0, 1, 1), (0, 2, 1)]);
    match c.plan {
        CoarsePlan::Matching { coarse_of } => assert_eq!(coarse_of, vec![0, 1, 2, 0]),
        CoarsePlan::IndependentSet { .. } => panic!("expected a matching"),
    }
}

#[test]
fn star_stalls() {
    let springs = [(0, 1, 1), (0, 2, 1), (0, 3, 1), (0, 4, 1)];
    assert!(coarsen(5, &springs, &[1, 1, 1, 1, 1]).is_none());
}

#[test]
fn two_stars_fall_back_to_independent_set() {
    let mut springs: Vec<(usize, usize, u64)> = Vec::new();
    for leaf in 1..=6 {
        springs.push((0, leaf, 1));
    }
    for leaf in 8..=13 {
        springs.push((7, leaf, 1));
    }
    springs.push((6, 13, 1));
    let c = coarsen(14, &springs, &[1; 14]).unwrap();
    assert_eq!(c.n, 2);
    assert_eq!(c.weights, vec![1, 1]);
    assert_eq!(c.springs, vec![(0, 1, 1)]);
    match c.plan {
        CoarsePlan::IndependentSet { coarse_of } => {
            let mut expected = vec![None; 14];
            expected[0] = Some(0);
            expected[7] = Some(1);
            assert_eq!(coarse_of, expected);
        }
        CoarsePlan::Matching { .. } => panic!("expected an independent set"),
    }
}

#[test]
fn independent_set_members_too_far_apart_stay_unjoined() {
    let mut springs: Vec<(usize, usize, u64)> = Vec::new();
    for leaf in 1..=6 {
        springs.push((0, leaf, 1));
    }
    for leaf in 8..=13 {
        springs.push((7, leaf, 1));
    }
    let c = coarsen(14, &springs, &[1; 14]).unwrap();
    assert_eq!(c.n, 2);
    assert!(c.springs.is_empty());
}

#[test]
fn parallel_springs_become_weights() {
    assert_eq!(
        spring_weights(&[(1, 0), (0, 1), (2, 1), (0, 1)]),
        vec![(0, 1, 3), (1, 2, 1)]
    );
    assert!(spring_weights(&[]).is_empty());
}

#[test]
fn merge_sums_equal_keys_in_order() {
    let pairs = vec![((2, 3), 5), ((0, 1), 1), ((2, 3), 2), ((0, 2), 4)];
    assert_eq!(merge_weighted(&pairs), vec![(0, 1, 1), (0, 2, 4), (2, 3, 7)]);
}

#[test]
fn independent_set_is_independent_and_maximal() {
    let mut springs: Vec<(usize, usize, u64)> = Vec::new();
    for leaf in 1..=6 {
        springs.push((0, leaf, 1));
    }
    for leaf in 8..=13 {
        springs.push((7, leaf, 1));
    }
    springs.push((6, 13, 1));
    let c = coarsen(14, &springs, &[1; 14]).unwrap();
    let CoarsePlan::IndependentSet { coarse_of } = c.plan else {
        panic!("expected an independent set")
    };
    let member = |v: usize| coarse_of[v].is_some();
    let adjacent = |a: usize, b: usize| springs.iter().any(|&(x, y, _)| (x, y) == (a, b) || (x, y) == (b, a));
    for a in 0..14 {
        for b in 0..14 {
            if a != b && member(a) && member(b) {
                assert!(!adjacent(a, b));
            }
        }
        if !member(a) {
            assert!((0..14).any(|u| member(u) && adjacent(u, a)));
        }
    }
}

#[test]
fn matching_is_maximal() {
    let springs = [(0, 1, 1), (1, 2, 1), (2, 3, 1), (3, 4, 1), (4, 0, 1), (2, 5, 1)];
    let c = coarsen(6, &springs, &[1; 6]).unwrap();
    let CoarsePlan::Matching { coarse_of } = c.plan else {
        panic!("expected a matching")
    };
    // Vertices sharing a coarse vertex are joined by a spring; two
    // singleton classes are never neighbors.
    let adjacent = |a: usize, b: usize| springs.iter().any(|&(x, y, _)| (x, y) == (a, b) || (x, y) == (b, a));
    let single = |v: usize| (0..6).filter(|&u| coarse_of[u] == coarse_of[v]).count() == 1;
    for a in 0..6 {
        for b in 0..6 {
            if a != b && coarse_of[a] == coarse_of[b] {
                assert!(adjacent(a, b));
            }
            if a != b && single(a) && single(b) {
                assert!(!adjacent(a, b));
            }
        }
    }
    assert_eq!(coarse_of, vec![0, 0, 1, 1, 2, 3]);
}
