use recommender::factor::{
    compute_rmse, factorize_from, init_factors, matrix_factorization, reconstruct, FactorMatrix,
};
use recommender::fixed::SCALE;
use recommender::matrix::Matrix;

fn scaled(x: f64) -> u64 {
    (x * SCALE as f64).round() as u64
}

const LR: u64 = 10_000; // 0.01
const REG: u64 = 100_000; // 0.1

/// One rated cell per user, the degenerate sparse case.
fn single_cell_matrix() -> Matrix {
    let mut m = Matrix::new(3, 3);
    m.set(0, 0, scaled(4.0));
    m.set(1, 1, scaled(3.0));
    m.set(2, 2, scaled(5.0));
    m
}

fn observed_error(ratings: &Matrix, u: &FactorMatrix, v: &FactorMatrix) -> f64 {
    let p = reconstruct(u, v);
    let mut sum = 0.0;
    let mut count = 0.0;
    for i in 0..ratings.rows {
        for j in 0..ratings.cols {
            let r = ratings.get(i, j);
            if r > 0 {
                let d = r as f64 / SCALE as f64 - p.get(i, j) as f64 / SCALE as f64;
                sum += d * d;
                count += 1.0;
            }
        }
    }
    (sum / count).sqrt()
}

#[test]
fn factorization_rmse_trend_is_non_increasing() {
    let ratings = single_cell_matrix();
    let u0 = init_factors(ratings.rows, 2);
    let v0 = init_factors(2, ratings.cols);
    let initial = observed_error(&ratings, &u0, &v0);
    let (mut u, mut v) = (u0, v0);
    let mut last = initial;
    for _window in 0..10 {
        let (u2, v2) = factorize_from(&ratings, u, v, LR, REG, 50);
        u = u2;
        v = v2;
        let e = observed_error(&ratings, &u, &v);
        // Trend over 50-epoch windows: allow small stochastic wobble.
        assert!(e <= last + 0.25);
        last = e;
    }
    assert!(last <= initial);
}

#[test]
fn factorization_on_all_zero_matrix_changes_nothing() {
    let ratings = Matrix::new(2, 2);
    let u0 = init_factors(2, 2);
    let v0 = init_factors(2, 2);
    let u0_data = u0.data.clone();
    let v0_data = v0.data.clone();
    let (u, v) = factorize_from(&ratings, u0, v0, LR, REG, 25);
    assert_eq!(u.data, u0_data);
    assert_eq!(v.data, v0_data);
}

#[test]
fn init_factors_are_uniform_in_unit_range() {
    let m = init_factors(8, 8);
    assert_eq!(m.rows, 8);
    assert_eq!(m.cols, 8);
    assert_eq!(m.data.len(), 64);
    let mut all_same = true;
    for &x in &m.data {
        assert!(0 <= x && x < SCALE as i64);
        if x != m.data[0] {
            all_same = false;
        }
    }
    // 64 independent draws from a million values never all coincide.
    assert!(!all_same);
}

#[test]
fn matrix_factorization_shapes_and_bounds() {
    let ratings = single_cell_matrix();
    let (u, v) = matrix_factorization(&ratings, 2, LR, REG, 10);
    assert_eq!(u.rows, 3);
    assert_eq!(u.cols, 2);
    assert_eq!(v.rows, 2);
    assert_eq!(v.cols, 3);
}

#[test]
fn compute_rmse_exact_on_known_values() {
    // ratings 2.0 and 0.0; predictions 0.0 and 0.0:
    // mean squared error = (2^2 + 0) / 2 = 2, rmse = sqrt(2).
    let mut ratings = Matrix::new(1, 2);
    ratings.set(0, 0, scaled(2.0));
    let predictions = FactorMatrix::new(1, 2);
    let rmse = compute_rmse(&ratings, &predictions);
    let expect = (2.0f64).sqrt();
    assert!((rmse as f64 / SCALE as f64 - expect).abs() < 1e-5);
}

#[test]
fn factorization_fits_a_rank_one_matrix() {
    // Every user rates every item identically: easy to fit.
    let mut ratings = Matrix::new(2, 2);
    for i in 0..2 {
        for j in 0..2 {
            ratings.set(i, j, scaled(3.0));
        }
    }
    let (u, v) = matrix_factorization(&ratings, 2, LR, REG, 500);
    let err = observed_error(&ratings, &u, &v);
    assert!(err < 0.3, "observed error too large: {}", err);
}
