//! Tests for strong orthogonal array verification and the partition helper.

use oars::soa::{sum_perms, verify, SOA};
use rand::RngExt;
use std::collections::HashSet;

fn valid_soa_points() -> Vec<Vec<u32>> {
    vec![
        vec![4, 0, 0, 0, 0, 0, 0, 0, 0, 0, 1],
        vec![7, 6, 3, 6, 2, 2, 3, 7, 7, 6, 3],
        vec![5, 5, 4, 1, 4, 0, 0, 1, 5, 5, 5],
        vec![6, 3, 7, 6, 3, 6, 2, 2, 3, 7, 7],
        vec![7, 6, 3, 7, 6, 3, 6, 2, 2, 3, 7],
        vec![7, 7, 6, 3, 7, 6, 3, 6, 2, 2, 3],
        vec![5, 5, 5, 4, 1, 5, 4, 1, 4, 0, 1],
        vec![4, 1, 5, 5, 4, 1, 5, 4, 1, 4, 1],
        vec![4, 0, 1, 5, 5, 4, 1, 5, 4, 1, 5],
        vec![6, 2, 2, 3, 7, 7, 6, 3, 7, 6, 3],
        vec![5, 4, 0, 0, 1, 5, 5, 4, 1, 5, 5],
        vec![6, 3, 6, 2, 2, 3, 7, 7, 6, 3, 7],
        vec![3, 7, 7, 7, 7, 7, 7, 7, 7, 7, 6],
        vec![0, 1, 4, 1, 5, 5, 4, 0, 0, 1, 4],
        vec![2, 2, 3, 6, 3, 7, 7, 6, 2, 2, 2],
        vec![1, 4, 0, 1, 4, 1, 5, 5, 4, 0, 0],
        vec![0, 1, 4, 0, 1, 4, 1, 5, 5, 4, 0],
        vec![0, 0, 1, 4, 0, 1, 4, 1, 5, 5, 4],
        vec![2, 2, 2, 3, 6, 2, 3, 6, 3, 7, 6],
        vec![3, 6, 2, 2, 3, 6, 2, 3, 6, 3, 6],
        vec![3, 7, 6, 2, 2, 3, 6, 2, 3, 6, 2],
        vec![1, 5, 5, 4, 0, 0, 1, 4, 0, 1, 4],
        vec![2, 3, 7, 7, 6, 2, 2, 3, 6, 2, 2],
        vec![1, 4, 1, 5, 5, 4, 0, 0, 1, 4, 0],
    ]
}

fn he_tang_example_points() -> Vec<Vec<u32>> {
    vec![
        vec![0, 0, 0],
        vec![2, 3, 6],
        vec![3, 6, 2],
        vec![1, 5, 4],
        vec![6, 2, 3],
        vec![4, 1, 5],
        vec![5, 4, 1],
        vec![7, 7, 7],
    ]
}

#[test]
fn test_sum_perms_ground_truth() {
    let res = sum_perms(5);
    let res_set: HashSet<Vec<u32>> = res.iter().cloned().collect();
    let ground_truth = vec![
        vec![1, 1, 1, 1, 1],
        vec![1, 1, 1, 2],
        vec![1, 2, 2],
        vec![1, 1, 3],
        vec![2, 3],
        vec![1, 4],
        vec![5],
    ];
    for array in ground_truth {
        assert!(res_set.contains(&array));
    }
}

#[test]
fn soa_test_sum_perms_ground_truth() {
    let res = sum_perms(5);
    let res_set: HashSet<Vec<u32>> = res.iter().cloned().collect();
    let ground_truth = vec![
        vec![1, 1, 1, 1, 1],
        vec![1, 1, 1, 2],
        vec![1, 2, 2],
        vec![1, 1, 3],
        vec![2, 3],
        vec![1, 4],
        vec![5],
    ];
    for array in ground_truth {
        assert!(res_set.contains(&array));
    }
}

#[test]
fn test_sum_perms_random() {
    let mut rng = rand::rng();
    let mut targets: Vec<u32> = Vec::new();

    for _ in 0..10 {
        targets.push(rng.random_range(1..25));
    }

    for target in targets {
        let res: Vec<Vec<u32>> = sum_perms(target);

        for array in res {
            assert!(array.into_iter().sum::<u32>() == target);
        }
    }
}

#[test]
fn soa_test_sum_perms_random() {
    let mut rng = rand::rng();
    let mut targets: Vec<u32> = Vec::new();

    for _ in 0..10 {
        targets.push(rng.random_range(1..25));
    }

    for target in targets {
        let res: Vec<Vec<u32>> = sum_perms(target);

        for array in res {
            assert!(array.into_iter().sum::<u32>() == target);
        }
    }
}

#[test]
fn test_verify_valid_soa() {
    let soa = SOA {
        strength: 3,
        base: 2,
        points: valid_soa_points(),
    };
    assert!(verify(&soa));

    // Taken from "A Characterization of Strong Orthogonal Arrays of
    // Strength 3" (He and Tang, 2014).
    let soa = SOA {
        strength: 3,
        base: 2,
        points: he_tang_example_points(),
    };
    assert!(verify(&soa));
}

#[test]
fn test_verify_invalid_soa() {
    // a duplicated row breaks the balance
    let mut points = valid_soa_points();
    points.insert(21, points[20].clone());
    let soa = SOA {
        strength: 3,
        base: 2,
        points,
    };
    assert!(!verify(&soa));

    // a single perturbed cell breaks the balance
    let mut points = valid_soa_points();
    points[0][3] = 1;
    let soa = SOA {
        strength: 3,
        base: 2,
        points,
    };
    assert!(!verify(&soa));
}

#[test]
fn test_he_tang_example_perturbed() {
    // a single perturbed cell in the published example makes it invalid
    let mut points = he_tang_example_points();
    points[1][1] = 2;
    let soa = SOA {
        strength: 3,
        base: 2,
        points,
    };
    assert!(!verify(&soa));
}

#[test]
fn test_soa_verify_idempotent() {
    let soa = SOA {
        strength: 3,
        base: 2,
        points: he_tang_example_points(),
    };
    let first = verify(&soa);
    let second = verify(&soa);
    assert!(first);
    assert_eq!(first, second);
}
