//! Tests for the He-Tang and Liu-Liu strong orthogonal array constructors.

use oars::constructors::{goa_to_soa, oa_to_goa, Bush, HeTang, LiuLiu};
use oars::oa::OA;
use oars::soa::{verify, SOACErrorKind};

#[test]
fn test_soa_pipeline() {
    // Example taken from the worked thesis figures for the He-Tang
    // construction.
    let oa_pts = vec![
        vec![0, 0, 0, 0],
        vec![0, 0, 1, 1],
        vec![0, 1, 0, 1],
        vec![0, 1, 1, 0],
        vec![1, 0, 0, 1],
        vec![1, 0, 1, 0],
        vec![1, 1, 0, 0],
        vec![1, 1, 1, 1],
    ];
    let oa = OA {
        factors: 4,
        strength: 3,
        levels: 2,
        index: 1,
        points: oa_pts,
    };

    let ground_truth = vec![
        vec![0, 0, 0],
        vec![2, 3, 6],
        vec![3, 6, 2],
        vec![1, 5, 4],
        vec![6, 2, 3],
        vec![4, 1, 5],
        vec![5, 4, 1],
        vec![7, 7, 7],
    ];
    let goa = oa_to_goa(&oa);
    let soa = goa_to_soa(&goa, oa.strength, oa.levels, 3);
    assert!(soa == ground_truth);
}

#[test]
fn test_he_tang_base_7_str_3_dim_5() {
    let bush = Bush {
        prime_base: 7,
        strength: 3,
        dimensions: 5,
    };
    let oa = bush.gen().unwrap();
    let ht = HeTang { oa: &oa };
    let soa = ht.gen().unwrap();
    assert!(verify(&soa));
}

#[test]
fn test_he_tang_base_7_str_3_dim_4() {
    let bush = Bush {
        prime_base: 7,
        strength: 3,
        dimensions: 4,
    };
    let oa = bush.gen().unwrap();
    let ht = HeTang { oa: &oa };
    let soa = ht.gen().unwrap();
    assert!(verify(&soa));
}

#[test]
fn test_he_tang_base_17_str_3_dim_6() {
    let bush = Bush {
        prime_base: 17,
        strength: 3,
        dimensions: 6,
    };
    let oa = bush.gen().unwrap();
    let ht = HeTang { oa: &oa };
    let soa = ht.gen().unwrap();
    assert!(verify(&soa));
}

#[test]
fn test_he_tang_base_17_str_3_dim_11() {
    let bush = Bush {
        prime_base: 17,
        strength: 3,
        dimensions: 11,
    };
    let oa = bush.gen().unwrap();
    let ht = HeTang { oa: &oa };
    let soa = ht.gen().unwrap();
    assert!(verify(&soa));
}

#[test]
fn test_he_tang_base_17_str_3_dim_5() {
    let bush = Bush {
        prime_base: 17,
        strength: 3,
        dimensions: 5,
    };
    let oa = bush.gen().unwrap();
    let ht = HeTang { oa: &oa };
    let soa = ht.gen().unwrap();
    assert!(verify(&soa));
}

#[test]
fn test_he_tang_base_7_str_3_dim_3() {
    let bush = Bush {
        prime_base: 7,
        strength: 3,
        dimensions: 3,
    };
    let oa = bush.gen().unwrap();
    let ht = HeTang { oa: &oa };
    let soa = ht.gen().unwrap();
    assert!(verify(&soa));
}

#[test]
fn test_he_tang_wrong_strength() {
    // an array whose strength is not 3 is rejected explicitly
    let bush = Bush {
        prime_base: 5,
        strength: 2,
        dimensions: 4,
    };
    let oa = bush.gen().unwrap();
    let ht = HeTang { oa: &oa };
    let r = ht.gen();
    assert!(r.is_err());
    assert!(r.unwrap_err().error_type == SOACErrorKind::UnsupportedParams);
}

#[test]
fn test_liu_liu_strength_two_swaps_columns() {
    // for strength 2 and two factors the reduction matrix is the single
    // antidiagonal block [[0, 1], [1, 0]], so the product swaps the columns
    let bush = Bush {
        prime_base: 2,
        strength: 2,
        dimensions: 2,
    };
    let oa = bush.gen().unwrap();
    let ll = LiuLiu { oa: &oa };
    let soa = ll.gen().unwrap();
    assert_eq!(soa.strength, 2);
    assert_eq!(soa.base, 2);
    let expected: Vec<Vec<u32>> = oa
        .points
        .iter()
        .map(|r| vec![r[1] as u32, r[0] as u32])
        .collect();
    assert_eq!(soa.points, expected);
}

#[test]
fn test_liu_liu_extra_column() {
    // factors = 3, strength = 2: q = 1 >= t/2, so the reduction matrix has
    // an extra third column holding [s^0, 0, s^1] = [1, 0, 2]
    let bush = Bush {
        prime_base: 3,
        strength: 2,
        dimensions: 3,
    };
    let oa = bush.gen().unwrap();
    let ll = LiuLiu { oa: &oa };
    let soa = ll.gen().unwrap();
    assert_eq!(soa.points.len(), oa.points.len());
    for (i, row) in soa.points.iter().enumerate() {
        assert_eq!(row.len(), 3);
        let src = &oa.points[i];
        assert_eq!(row[0] as u64, src[1]);
        assert_eq!(row[1] as u64, src[0]);
        assert_eq!(row[2] as u64, src[0] + 3 * src[2]);
    }
}

#[test]
fn test_liu_liu_invalid_params() {
    let oa = OA {
        strength: 0,
        levels: 2,
        factors: 2,
        index: 1,
        points: vec![vec![0, 0], vec![1, 1]],
    };
    let ll = LiuLiu { oa: &oa };
    let r = ll.gen();
    assert!(r.is_err());
    assert!(r.unwrap_err().error_type == SOACErrorKind::InvalidParams);
}

#[test]
fn test_he_tang_runtime_error() {
    // levels^3 overflows 32 bits, so the compressed values cannot be held
    let oa = OA {
        strength: 3,
        levels: 2000,
        factors: 2,
        index: 1,
        points: vec![vec![0, 0], vec![1, 1]],
    };
    let ht = HeTang { oa: &oa };
    let r = ht.gen();
    assert!(r.is_err());
    assert!(r.unwrap_err().error_type == SOACErrorKind::RuntimeError);
}
