//! Tests for the base conversion and polynomial evaluation utilities, the
//! error types, the permutation vector and the polynomial groundwork.

use oars::galois::{Field, Polynomial};
use oars::perm_vec::PermutationVector;
use oars::utils::{poly_eval, to_base_fixed, ErrorKind, OarsError};

#[test]
fn test_to_base_fixed() {
    let num = 5;
    let base = 2;
    let mut res = to_base_fixed(num, base, 3);
    res.reverse();
    assert!(res == vec![1, 0, 1]);

    let num = 1;
    let base = 2;
    let mut res = to_base_fixed(num, base, 3);
    res.reverse();
    assert!(res == vec![0, 0, 1]);

    let num = 9;
    let base = 2;
    let mut res = to_base_fixed(num, base, 5);
    res.reverse();
    assert!(res == vec![0, 1, 0, 0, 1]);

    let num = 7;
    let base = 3;
    let mut res = to_base_fixed(num, base, 2);
    res.reverse();
    assert!(res == vec![2, 1]);
}

#[test]
fn test_poly_eval() {
    let coeffs = vec![1, 1, 1, 1];
    let base = 2;
    let result = poly_eval(&coeffs, base);
    assert!(result == 15);

    let coeffs = vec![1, 2];
    let base = 3;
    let result = poly_eval(&coeffs, base);
    assert!(result == 7);

    let coeffs = vec![1, 0, 0, 1];
    let base = 2;
    let result = poly_eval(&coeffs, base);
    assert!(result == 9);

    let coeffs = vec![0, 0, 1];
    let base = 3;
    let result = poly_eval(&coeffs, base);
    assert!(result == 9);
}

#[test]
fn test_oars_error_new() {
    let e = OarsError::new(ErrorKind::InvalidParams, "Base is not prime");
    assert!(e.error_type == ErrorKind::InvalidParams);
    assert_eq!(e.desc, "Base is not prime");
}

#[test]
fn test_permutation_vector_identity() {
    let v = PermutationVector::new(5);
    for i in 0..5 {
        assert_eq!(v.index(i), i);
    }
}

#[test]
fn test_permutation_vector_shuffle() {
    let mut v = PermutationVector::new(10);
    v.shuffle();
    let mut seen: Vec<usize> = (0..10).map(|i| v.index(i)).collect();
    seen.sort();
    let identity: Vec<usize> = (0..10).collect();
    assert_eq!(seen, identity);
}

#[test]
fn test_polynomial_new_degree() {
    let field = Field {
        prim_poly: 7,
        size: 4,
    };
    let p = Polynomial::new(5, 3, &field);
    assert_eq!(p.degree(), 3);

    let p = Polynomial::new(1, 8, &field);
    assert_eq!(p.degree(), 8);
}
