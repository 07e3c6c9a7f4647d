use recommender::fixed::{idf_fixed, isqrt, LN2_FP, SCALE};
use recommender::vecmath::cosine_similarity;

#[test]
fn isqrt_exact_values() {
    assert_eq!(isqrt(0), 0);
    assert_eq!(isqrt(1), 1);
    assert_eq!(isqrt(15), 3);
    assert_eq!(isqrt(16), 4);
    assert_eq!(isqrt(1_000_000_000_000), 1_000_000);
}

#[test]
fn idf_of_equal_counts_is_zero() {
    assert_eq!(idf_fixed(7, 7), 0);
}

#[test]
fn idf_of_doubled_count_is_ln_two() {
    assert_eq!(idf_fixed(2, 1), LN2_FP);
    assert_eq!(idf_fixed(8, 2), 2 * LN2_FP);
}

#[test]
fn cosine_of_vector_with_itself_is_one() {
    let v: Vec<u64> = vec![3 * SCALE, 4 * SCALE, 0];
    assert_eq!(cosine_similarity(&v, &v), SCALE);
}

#[test]
fn cosine_of_orthogonal_vectors_is_zero() {
    let a: Vec<u64> = vec![SCALE, 0];
    let b: Vec<u64> = vec![0, SCALE];
    assert_eq!(cosine_similarity(&a, &b), 0);
}

#[test]
fn cosine_with_zero_vector_is_zero() {
    let a: Vec<u64> = vec![0, 0];
    let b: Vec<u64> = vec![SCALE, SCALE];
    assert_eq!(cosine_similarity(&a, &b), 0);
}

#[test]
fn cosine_stays_within_unit_interval() {
    let a: Vec<u64> = vec![SCALE, 2 * SCALE, 3 * SCALE];
    let b: Vec<u64> = vec![3 * SCALE, 2 * SCALE, SCALE];
    let s = cosine_similarity(&a, &b);
    assert!(s <= SCALE);
    // (3 + 4 + 3) / (sqrt(14) * sqrt(14)) = 10 / 14.
    let expect = 10.0 / 14.0;
    assert!((s as f64 / SCALE as f64 - expect).abs() < 1e-4);
}
