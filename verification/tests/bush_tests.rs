//! Unit tests for the Bush array constructor.

use oars::constructors::{Bush, BushChecked};
use oars::oa::verify;

#[test]
fn test_bush_init_verify() {
    let bush = Bush {
        prime_base: 2,
        dimensions: 2,
        strength: 2,
    };
    let oa = bush.gen().unwrap();
    assert!(verify(&oa).unwrap());

    let bush = Bush {
        prime_base: 3,
        dimensions: 2,
        strength: 2,
    };
    let oa = bush.gen().unwrap();
    assert!(verify(&oa).unwrap());

    let bush = Bush {
        prime_base: 3,
        dimensions: 3,
        strength: 3,
    };
    let oa = bush.gen().unwrap();
    assert!(verify(&oa).unwrap());

    let bush = Bush {
        prime_base: 5,
        dimensions: 4,
        strength: 4,
    };
    let oa = bush.gen().unwrap();
    assert!(verify(&oa).unwrap());
}

#[test]
fn test_bush_par_init_verify() {
    let bush = Bush {
        prime_base: 2,
        dimensions: 2,
        strength: 2,
    };
    let oa = bush.gen_par().unwrap();
    assert!(verify(&oa).unwrap());

    let bush = Bush {
        prime_base: 3,
        dimensions: 2,
        strength: 2,
    };
    let oa = bush.gen_par().unwrap();
    assert!(verify(&oa).unwrap());

    let bush = Bush {
        prime_base: 3,
        dimensions: 3,
        strength: 3,
    };
    let oa = bush.gen_par().unwrap();
    assert!(verify(&oa).unwrap());

    let bush = Bush {
        prime_base: 5,
        dimensions: 4,
        strength: 4,
    };
    let oa = bush.gen_par().unwrap();
    assert!(verify(&oa).unwrap());
}

#[test]
fn bush_non_prime() {
    let bush = BushChecked {
        strength: 2,
        prime_base: 4,
        dimensions: 3,
    };
    assert!(bush.verify().is_err());

    let bush = BushChecked {
        strength: 2,
        prime_base: 9,
        dimensions: 3,
    };
    assert!(bush.verify().is_err());

    let bush = BushChecked {
        strength: 2,
        prime_base: 100,
        dimensions: 3,
    };
    assert!(bush.verify().is_err());
}

#[test]
fn bush_bad_dims() {
    let bush = BushChecked {
        strength: 2,
        prime_base: 5,
        dimensions: 7,
    };
    assert!(bush.verify().is_err());

    let bush = BushChecked {
        strength: 2,
        prime_base: 7,
        dimensions: 11,
    };
    assert!(bush.verify().is_err());

    let bush = BushChecked {
        strength: 2,
        prime_base: 13,
        dimensions: 17,
    };
    assert!(bush.verify().is_err());
}

#[test]
fn test_bush_gen_invalid_params() {
    // the generation method itself validates: a non-prime base, an
    // out-of-range dimension count and an out-of-range strength each yield
    // an error rather than a malformed array
    let bush = Bush {
        prime_base: 4,
        dimensions: 3,
        strength: 2,
    };
    assert!(bush.gen().is_err());

    let bush = Bush {
        prime_base: 5,
        dimensions: 1,
        strength: 2,
    };
    assert!(bush.gen().is_err());

    let bush = Bush {
        prime_base: 5,
        dimensions: 3,
        strength: 6,
    };
    assert!(bush.gen().is_err());
}

#[test]
fn test_bush_par_matches_gen() {
    for (p, t, d) in [(2u64, 2u64, 2u64), (3, 3, 4), (5, 2, 6), (7, 3, 8)] {
        let bush = Bush {
            prime_base: p,
            strength: t,
            dimensions: d,
        };
        let serial = bush.gen().unwrap();
        let parallel = bush.gen_par().unwrap();
        assert_eq!(serial.points, parallel.points);
    }
}

#[test]
fn test_bush_extra_column() {
    // dimensions == prime_base + 1 populates the designated extra column
    // with (i - 1) mod p
    let bush = Bush {
        prime_base: 2,
        strength: 2,
        dimensions: 3,
    };
    let oa = bush.gen().unwrap();
    assert_eq!(oa.points.len(), 4);
    for row in &oa.points {
        assert_eq!(row.len(), 3);
    }
    let extra: Vec<u64> = oa.points.iter().map(|r| r[2]).collect();
    assert_eq!(extra, vec![1, 0, 1, 0]);
}

#[test]
fn test_bush_extra_column_strength2_not_stratified() {
    // with dimensions == prime_base + 1 the designated extra column repeats
    // the information of the first column shifted by one, so the strength-2
    // stratification guarantee does not hold over that pair of columns
    let bush = Bush {
        prime_base: 2,
        strength: 2,
        dimensions: 3,
    };
    let oa = bush.gen().unwrap();
    assert!(!verify(&oa).unwrap());
}
