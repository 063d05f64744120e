//! Matrices given row by row.

use evo_nn::error::Error;
use evo_nn::matrix;
use rand::prelude::{thread_rng, Rng};
use rand_distr::StandardNormal;

fn bits(rows: Vec<Vec<f64>>) -> Vec<Vec<u64>> {
    rows.iter().map(|row| row.iter().map(|v| v.to_bits()).collect()).collect()
}

fn floats(rows: &Vec<Vec<u64>>) -> Vec<Vec<f64>> {
    rows.iter().map(|row| row.iter().map(|v| f64::from_bits(*v)).collect()).collect()
}

fn draws(count: usize) -> Vec<u64> {
    let mut rng = thread_rng();
    (0..count).map(|_| rng.sample::<f64, _>(StandardNormal).to_bits()).collect()
}

#[test]
fn matrix_new_test() {
    let tm = matrix::new(2, 5);
    assert_eq!(tm.rows, 2);
    assert_eq!(tm.columns, 5);
    assert_eq!(floats(&tm.value), [[0.0, 0.0, 0.0, 0.0, 0.0], [0.0, 0.0, 0.0, 0.0, 0.0]]);
}

#[test]
fn matrix_new_gaussian_noise_test() {
    let tm = matrix::new_gaussian_noise(2, 5, &draws(10)).unwrap();
    assert_eq!(tm.rows, 2);
    assert_eq!(tm.columns, 5);
    assert_ne!(floats(&tm.value), [[0.0, 0.0, 0.0, 0.0, 0.0], [0.0, 0.0, 0.0, 0.0, 0.0]]);
}

#[test]
fn set_value_test() {
    let mut tm = matrix::new(2, 5);
    matrix::set_value(
        &mut tm,
        bits(vec![vec![2.0, 4.0, 6.7, 1.78, 4.357], vec![5.7, 8.94, 2.63, 2.56, 3.94]]),
    )
    .unwrap();
    assert_eq!(
        floats(&tm.value),
        vec![vec![2.0, 4.0, 6.7, 1.78, 4.357], vec![5.7, 8.94, 2.63, 2.56, 3.94]]
    );
}

#[test]
fn matrix_multiply_test() {
    let mut a = matrix::new(2, 5);
    let mut b = matrix::new(5, 2);

    a.value = bits(vec![vec![1.0, 3.0, 6.0, 7.0, 2.0], vec![12.0, 4.0, 10.0, 5.0, 3.0]]);

    b.value = bits(vec![
        vec![3.0, 7.0],
        vec![1.0, 6.0],
        vec![8.0, 20.0],
        vec![3.0, 8.0],
        vec![9.0, 2.0],
    ]);

    let c = matrix::multiply(&a, &b).unwrap();
    assert_eq!(c.rows, 2);
    assert_eq!(c.columns, 2);
    assert_eq!(floats(&c.value), [[93.0, 205.0], [162.0, 354.0]]);
}

#[test]
fn matrix_scalar_test() {
    let mut a = matrix::new(2, 5);
    a.value = bits(vec![vec![1.0, 3.0, 6.0, 7.0, 2.0], vec![12.0, 4.0, 10.0, 5.0, 3.0]]);

    let b = matrix::scalar(&a, 2.0f64.to_bits());
    assert_eq!(b.rows, 2);
    assert_eq!(b.columns, 5);
    assert_eq!(floats(&b.value), [[2.0, 6.0, 12.0, 14.0, 4.0], [24.0, 8.0, 20.0, 10.0, 6.0]]);
}

#[test]
fn matrix_add_test() {
    let mut a = matrix::new(2, 2);
    let mut b = matrix::new(2, 2);

    a.value = bits(vec![vec![2.0, 4.0], vec![1.0, 7.0]]);

    b.value = bits(vec![vec![1.0, 2.0], vec![3.0, 4.0]]);

    let c = matrix::add(&a, &b).unwrap();
    assert_eq!(c.rows, 2);
    assert_eq!(c.columns, 2);
    assert_eq!(floats(&c.value), [[3.0, 6.0], [4.0, 11.0]]);
}

#[test]
fn matrix_mean_test() {
    let mut a = matrix::new(2, 2);
    a.value = bits(vec![vec![2.0, 4.0], vec![1.0, 7.0]]);

    assert_eq!(f64::from_bits(matrix::mean(&a)), 3.5);
}

#[test]
fn matrix_variance_test() {
    let mut a = matrix::new(2, 2);
    a.value = bits(vec![vec![2.0, 4.0], vec![1.0, 7.0]]);

    assert_eq!(f64::from_bits(matrix::variance(&a, matrix::mean(&a))), 5.25);
}

#[test]
fn matrix_normalize_test() {
    let mut a = matrix::new(2, 2);
    a.value = bits(vec![vec![2.0, 4.0], vec![1.0, 7.0]]);

    let mean = f64::from_bits(matrix::mean(&a));
    let standard_deviation = f64::from_bits(matrix::variance(&a, mean.to_bits())).sqrt();
    let given = floats(&a.value);
    let expected_b_value = [
        [(given[0][0] - mean) / standard_deviation, (given[0][1] - mean) / standard_deviation],
        [(given[1][0] - mean) / standard_deviation, (given[1][1] - mean) / standard_deviation],
    ];

    let b = matrix::normalize(&a);
    assert_eq!(b.rows, 2);
    assert_eq!(b.columns, 2);
    assert_eq!(floats(&b.value), expected_b_value);
    assert_eq!(f64::from_bits(matrix::mean(&b)), 0.0);
    assert_eq!(f64::from_bits(matrix::variance(&b, matrix::mean(&b))).sqrt(), 1.0);
}

#[test]
fn activate_test() {
    let mut a = matrix::new(2, 2);
    a.value = bits(vec![vec![2.0, -4.0], vec![-1.0, 7.0]]);

    let b = matrix::activate(&a);
    assert_eq!(b.rows, 2);
    assert_eq!(b.columns, 2);
    assert_eq!(floats(&b.value), [[2.0, -1.0], [-0.25, 7.0]]);
}

#[test]
fn matrix_leaky_relu_test() {
    let a: f64 = 1.45;
    let b: f64 = -8.95;

    assert_eq!(f64::from_bits(matrix::leaky_relu(a.to_bits())), a);
    assert_eq!(f64::from_bits(matrix::leaky_relu(b.to_bits())), b * 0.25);
}

#[test]
fn set_value_rejects_a_grid_of_another_shape() {
    let mut tm = matrix::new(2, 2);
    matrix::set_value(&mut tm, bits(vec![vec![1.0, 2.0], vec![3.0, 4.0]])).unwrap();
    let short = matrix::set_value(&mut tm, bits(vec![vec![9.0, 9.0]]));
    assert_eq!(short, Err(Error::ShapeMismatch));
    let ragged = matrix::set_value(&mut tm, bits(vec![vec![9.0, 9.0], vec![9.0]]));
    assert_eq!(ragged, Err(Error::ShapeMismatch));
    assert_eq!(floats(&tm.value), [[1.0, 2.0], [3.0, 4.0]]);
}
