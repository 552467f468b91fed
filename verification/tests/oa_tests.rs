//! Tests for the orthogonal array verifier.

use oars::oa::{verify, OA, OACErrorKind};

#[test]
fn test_verify_oa_bad_in() {
    let points = vec![
        vec![0, 0, 0],
        vec![0, 1, 1],
        vec![0, 2, 2],
        vec![1, 0, 0],
        vec![1, 0, 0],
        vec![1, 2, 2],
        vec![2, 0, 0],
        vec![2, 1, 1],
        vec![2, 2, 2],
    ];
    let oa = OA {
        strength: 3,
        levels: 3,
        index: 1,
        factors: 3,
        points,
    };
    assert!(!verify(&oa).unwrap());
}

#[test]
fn test_verify_oa_good_in() {
    let points = vec![
        vec![0, 0, 0],
        vec![0, 1, 1],
        vec![0, 2, 2],
        vec![1, 0, 1],
        vec![1, 1, 2],
        vec![1, 2, 0],
        vec![2, 0, 2],
        vec![2, 1, 0],
        vec![2, 2, 1],
    ];
    let oa = OA {
        strength: 2,
        levels: 3,
        index: 1,
        factors: 3,
        points,
    };
    assert!(verify(&oa).unwrap());
}

#[test]
fn test_verify_shape_mismatch() {
    // a matrix whose rows disagree with `factors` is rejected before the
    // exhaustive check runs
    let points = vec![vec![0, 0], vec![0, 1]];
    let oa = OA {
        strength: 2,
        levels: 2,
        index: 1,
        factors: 3,
        points,
    };
    let r = verify(&oa);
    assert!(r.is_err());
    assert!(r.unwrap_err().error_type == OACErrorKind::ShapeMismatch);

    // a ragged matrix is rejected the same way
    let points = vec![vec![0, 0], vec![0]];
    let oa = OA {
        strength: 2,
        levels: 2,
        index: 1,
        factors: 2,
        points,
    };
    assert!(verify(&oa).is_err());
}

#[test]
fn test_verify_idempotent() {
    let points = vec![vec![0, 0], vec![0, 1], vec![1, 0], vec![1, 1]];
    let oa = OA {
        strength: 2,
        levels: 2,
        index: 1,
        factors: 2,
        points,
    };
    let first = verify(&oa).unwrap();
    let second = verify(&oa).unwrap();
    assert!(first);
    assert_eq!(first, second);
}

#[test]
fn test_verify_wrong_index() {
    // a perfectly balanced strength-2 array fails verification when its
    // declared index disagrees with the tallies
    let points = vec![vec![0, 0], vec![0, 1], vec![1, 0], vec![1, 1]];
    let oa = OA {
        strength: 2,
        levels: 2,
        index: 2,
        factors: 2,
        points,
    };
    assert!(!verify(&oa).unwrap());
}
