//! Matrices given as one run of values.
//!
//! Where the place of an entry matters the run goes column by column; the
//! statistics add the entries up in the order of the run.

use evo_nn::matrix;
use evo_nn::matrix::Matrix;
use rand::prelude::{thread_rng, Rng};
use rand_distr::StandardNormal;

/// The matrix whose columns, one after the other, are `values`.
fn column_major(rows: usize, columns: usize, values: &[f64]) -> Matrix {
    let mut m = matrix::new(rows, columns);
    let grid: Vec<Vec<u64>> = (0..rows)
        .map(|i| (0..columns).map(|j| values[j * rows + i].to_bits()).collect())
        .collect();
    matrix::set_value(&mut m, grid).unwrap();
    m
}

/// The matrix whose entries, in the order in which they are added up, are
/// `values`.
fn in_order(rows: usize, columns: usize, values: &[f64]) -> Matrix {
    let mut m = matrix::new(rows, columns);
    let grid: Vec<Vec<u64>> = (0..rows)
        .map(|i| (0..columns).map(|j| values[i * columns + j].to_bits()).collect())
        .collect();
    matrix::set_value(&mut m, grid).unwrap();
    m
}

/// The entries of `m` in the order in which they are added up.
fn run(m: &Matrix) -> Vec<f64> {
    m.value.iter().flat_map(|row| row.iter().map(|v| f64::from_bits(*v))).collect()
}

/// The entries of `m`, column by column.
fn values(m: &Matrix) -> Vec<f64> {
    let mut out = Vec::new();
    for j in 0..m.columns {
        for i in 0..m.rows {
            out.push(f64::from_bits(m.value[i][j]));
        }
    }
    out
}

#[test]
fn test_new_test() {
    let a = matrix::new(2, 3);

    assert_eq!(a.rows, 2);
    assert_eq!(a.columns, 3);
    assert_eq!(values(&a), [0.0, 0.0, 0.0, 0.0, 0.0, 0.0]);
}

#[test]
fn test_new_gaussian_noise_test() {
    let mut rng = thread_rng();
    let draws: Vec<u64> = (0..6).map(|_| rng.sample::<f64, _>(StandardNormal).to_bits()).collect();
    let a = matrix::new_gaussian_noise(2, 3, &draws).unwrap();

    assert_eq!(a.rows, 2);
    assert_eq!(a.columns, 3);
    assert_ne!(values(&a), [0.0, 0.0, 0.0, 0.0, 0.0, 0.0]);
}

#[test]
fn test_multiply_test() {
    let a = column_major(2, 3, &[4.0, 6.0, 1.0, 9.0, 7.0, 3.0]);
    let b = column_major(3, 3, &[2.0, 8.0, 3.0, 3.0, 2.0, 8.0, 7.0, 2.0, 9.0]);

    let c = matrix::multiply(&a, &b).unwrap();
    assert_eq!(c.rows, 2);
    assert_eq!(c.columns, 3);
    assert_eq!(values(&c), [37.0, 93.0, 70.0, 60.0, 93.0, 87.0]);
}

#[test]
#[should_panic]
fn multiply_panic_test() {
    let a = column_major(2, 3, &[4.0, 6.0, 1.0, 9.0, 7.0, 3.0]);
    let b = column_major(3, 3, &[2.0, 8.0, 3.0, 3.0, 2.0, 8.0, 7.0, 2.0, 9.0]);
    let _ = matrix::multiply(&b, &a).unwrap();
}

#[test]
fn test_add_test() {
    let a = column_major(2, 3, &[4.0, 6.0, 1.0, 9.0, 7.0, 3.0]);
    let b = column_major(2, 3, &[2.0, 8.0, 3.0, 3.0, 2.0, 8.0]);

    let c = matrix::add(&a, &b).unwrap();
    assert_eq!(c.rows, 2);
    assert_eq!(c.columns, 3);
    assert_eq!(values(&c), [6.0, 14.0, 4.0, 12.0, 9.0, 11.0]);
}

#[test]
#[should_panic]
fn add_panic_test() {
    let a = column_major(2, 3, &[4.0, 6.0, 1.0, 9.0, 7.0, 3.0]);
    let b = column_major(2, 2, &[2.0, 8.0, 3.0, 3.0]);

    let _ = matrix::add(&a, &b).unwrap();
}

#[test]
fn test_scalar_test() {
    let a = column_major(2, 3, &[4.0, 6.0, 1.0, 9.0, 7.0, 3.0]);

    let b = matrix::scalar(&a, 1.3f64.to_bits());
    assert_eq!(b.rows, 2);
    assert_eq!(b.columns, 3);
    assert_eq!(values(&b), [4.0 * 1.3, 6.0 * 1.3, 1.0 * 1.3, 9.0 * 1.3, 7.0 * 1.3, 3.0 * 1.3]);
}

#[test]
fn test_mean_test() {
    let a = in_order(2, 2, &[2.0, 4.0, 1.0, 7.0]);

    assert_eq!(f64::from_bits(matrix::mean(&a)), 3.5);
}

#[test]
fn test_variance_test() {
    let a = in_order(2, 2, &[2.0, 4.0, 1.0, 7.0]);

    assert_eq!(f64::from_bits(matrix::variance(&a, matrix::mean(&a))), 5.25);
}

#[test]
fn test_normalize_test() {
    let given = [2.0, 4.0, 1.0, 7.0];
    let a = in_order(2, 2, &given);

    let mean = f64::from_bits(matrix::mean(&a));
    let standard_deviation = f64::from_bits(matrix::variance(&a, mean.to_bits())).sqrt();
    let expected_b_value = [
        (given[0] - mean) / standard_deviation,
        (given[1] - mean) / standard_deviation,
        (given[2] - mean) / standard_deviation,
        (given[3] - mean) / standard_deviation,
    ];

    let b = matrix::normalize(&a);
    assert_eq!(b.rows, 2);
    assert_eq!(b.columns, 2);
    assert_eq!(run(&b), expected_b_value);
    assert_eq!(f64::from_bits(matrix::mean(&b)), 0.0);
    assert_eq!(f64::from_bits(matrix::variance(&b, matrix::mean(&b))).sqrt(), 1.0);
}

#[test]
fn test_leaky_relu_test() {
    let a = column_major(2, 2, &[2.0, -4.0, -1.0, 7.0]);

    let b = matrix::activate_with(&a, 0.01f64.to_bits());
    assert_eq!(b.rows, 2);
    assert_eq!(b.columns, 2);
    assert_eq!(values(&b), [2.0, -0.04, -0.01, 7.0]);
}
