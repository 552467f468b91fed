//! Unit tests for the Bose array constructor.

use oars::constructors::Bose;
use oars::oa::{verify, OACErrorKind};

#[test]
fn test_bose_init_verify() {
    let bose = Bose {
        prime_base: 2,
        dimensions: 2,
    };
    let oa = bose.gen().unwrap();
    assert!(verify(&oa).unwrap());

    let bose = Bose {
        prime_base: 3,
        dimensions: 2,
    };
    let oa = bose.gen().unwrap();
    assert!(verify(&oa).unwrap());

    let bose = Bose {
        prime_base: 3,
        dimensions: 3,
    };
    let oa = bose.gen().unwrap();
    assert!(verify(&oa).unwrap());
}

#[test]
fn test_bose_par_init_verify() {
    let bose = Bose {
        prime_base: 2,
        dimensions: 2,
    };
    let oa = bose.gen_par().unwrap();
    assert!(verify(&oa).unwrap());

    let bose = Bose {
        prime_base: 3,
        dimensions: 2,
    };
    let oa = bose.gen_par().unwrap();
    assert!(verify(&oa).unwrap());

    let bose = Bose {
        prime_base: 3,
        dimensions: 3,
    };
    let oa = bose.gen_par().unwrap();
    assert!(verify(&oa).unwrap());
}

#[test]
fn bose_non_prime() {
    let bose = Bose {
        prime_base: 4,
        dimensions: 4,
    };
    assert!(bose.gen().is_err());
}

#[test]
fn bose_par_non_prime() {
    let bose = Bose {
        prime_base: 4,
        dimensions: 4,
    };
    assert!(bose.gen().is_err());
}

#[test]
fn bose_bad_dims() {
    let bose = Bose {
        prime_base: 5,
        dimensions: 1,
    };
    assert!(bose.gen().is_err());

    let bose = Bose {
        prime_base: 5,
        dimensions: 7,
    };
    assert!(bose.gen().is_err());

    let bose = Bose {
        prime_base: 13,
        dimensions: 20,
    };
    assert!(bose.gen().is_err());
}

#[test]
fn bose_par_bad_dims() {
    let bose = Bose {
        prime_base: 5,
        dimensions: 1,
    };
    assert!(bose.gen_par().is_err());

    let bose = Bose {
        prime_base: 5,
        dimensions: 7,
    };
    assert!(bose.gen_par().is_err());

    let bose = Bose {
        prime_base: 13,
        dimensions: 20,
    };
    assert!(bose.gen_par().is_err());
}

#[test]
fn bose_init_2() {
    let bose = Bose {
        prime_base: 2,
        dimensions: 2,
    };
    let oa = bose.gen().unwrap();
    let ground_truth = vec![vec![0, 0], vec![0, 1], vec![1, 0], vec![1, 1]];
    assert!(oa.points == ground_truth);
}

#[test]
fn bose_bose_init_2() {
    let bose = Bose {
        prime_base: 2,
        dimensions: 2,
    };
    let oa = bose.gen().unwrap();
    let ground_truth = vec![vec![0, 0], vec![0, 1], vec![1, 0], vec![1, 1]];
    assert!(oa.points == ground_truth);
}

#[test]
fn bose_par_init_2() {
    let bose = Bose {
        prime_base: 2,
        dimensions: 2,
    };
    let oa = bose.gen_par().unwrap();
    let ground_truth = vec![vec![0, 0], vec![0, 1], vec![1, 0], vec![1, 1]];
    assert!(oa.points == ground_truth);
}

#[test]
fn bose_bose_par_init_2() {
    let bose = Bose {
        prime_base: 2,
        dimensions: 2,
    };
    let oa = bose.gen_par().unwrap();
    let ground_truth = vec![vec![0, 0], vec![0, 1], vec![1, 0], vec![1, 1]];
    assert!(oa.points == ground_truth);
}

#[test]
fn bose_init_3() {
    let bose = Bose {
        prime_base: 3,
        dimensions: 3,
    };
    let oa = bose.gen().unwrap();
    let ground_truth = vec![
        vec![0, 0, 0],
        vec![0, 1, 1],
        vec![0, 2, 2],
        vec![1, 0, 1],
        vec![1, 1, 2],
        vec![1, 2, 0],
        vec![2, 0, 2],
        vec![2, 1, 0],
        vec![2, 2, 1],
    ];
    assert!(oa.points == ground_truth);
}

#[test]
fn bose_bose_init_3() {
    let bose = Bose {
        prime_base: 3,
        dimensions: 3,
    };
    let oa = bose.gen().unwrap();
    let ground_truth = vec![
        vec![0, 0, 0],
        vec![0, 1, 1],
        vec![0, 2, 2],
        vec![1, 0, 1],
        vec![1, 1, 2],
        vec![1, 2, 0],
        vec![2, 0, 2],
        vec![2, 1, 0],
        vec![2, 2, 1],
    ];
    assert!(oa.points == ground_truth);
}

#[test]
fn test_bose_par_matches_gen() {
    for (p, d) in [(2u64, 2u64), (3, 3), (5, 6), (7, 8), (11, 5)] {
        let bose = Bose {
            prime_base: p,
            dimensions: d,
        };
        let serial = bose.gen().unwrap();
        let parallel = bose.gen_par().unwrap();
        assert_eq!(serial.points, parallel.points);
    }
}

#[test]
fn test_bose_invalid_params_kind() {
    let bose = Bose {
        prime_base: 4,
        dimensions: 4,
    };
    let e = bose.gen().unwrap_err();
    assert!(e.error_type == OACErrorKind::InvalidParams);

    let e = bose.gen_par().unwrap_err();
    assert!(e.error_type == OACErrorKind::InvalidParams);
}
