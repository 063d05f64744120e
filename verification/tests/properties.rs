//! What holds of the matrix operations on whole families of inputs, tried
//! on concrete ones.

use evo_nn::error::Error;
use evo_nn::matrix;
use evo_nn::matrix::Matrix;
use rand::rngs::StdRng;
use rand::{Rng, SeedableRng};
use rand_distr::StandardNormal;

fn filled(rows: usize, columns: usize, rng: &mut StdRng) -> Matrix {
    let draws: Vec<u64> =
        (0..rows * columns).map(|_| rng.sample::<f64, _>(StandardNormal).to_bits()).collect();
    matrix::new_gaussian_noise(rows, columns, &draws).unwrap()
}

fn grid(values: Vec<Vec<f64>>) -> Matrix {
    let mut m = matrix::new(values.len(), values[0].len());
    matrix::set_value(&mut m, values.iter().map(|r| r.iter().map(|v| v.to_bits()).collect()).collect())
        .unwrap();
    m
}

fn floats(m: &Matrix) -> Vec<Vec<f64>> {
    m.value.iter().map(|r| r.iter().map(|v| f64::from_bits(*v)).collect()).collect()
}

#[test]
fn products_have_the_outer_shape_or_fail() {
    let mut rng = StdRng::seed_from_u64(1);
    for rows in 0..4usize {
        for inner in 0..4usize {
            for columns in 0..4usize {
                let a = filled(rows, inner, &mut rng);
                let b = filled(inner, columns, &mut rng);
                let c = matrix::multiply(&a, &b).unwrap();
                assert_eq!((c.rows, c.columns), (rows, columns));
                assert_eq!(c.value.len(), rows);
                assert!(c.value.iter().all(|r| r.len() == columns));
                let other = filled(inner + 1, columns, &mut rng);
                assert_eq!(matrix::multiply(&a, &other).err(), Some(Error::ShapeMismatch));
            }
        }
    }
}

#[test]
fn an_empty_inner_dimension_gives_zeros() {
    let a = matrix::new(2, 0);
    let b = matrix::new(0, 3);
    let c = matrix::multiply(&a, &b).unwrap();
    assert_eq!(floats(&c), vec![vec![0.0, 0.0, 0.0], vec![0.0, 0.0, 0.0]]);
}

#[test]
fn sums_and_differences_need_equal_shapes() {
    let a = matrix::new(2, 3);
    assert_eq!(matrix::add(&a, &matrix::new(3, 2)).err(), Some(Error::ShapeMismatch));
    assert_eq!(matrix::add(&a, &matrix::new(2, 2)).err(), Some(Error::ShapeMismatch));
    assert_eq!(matrix::subtract(&a, &matrix::new(3, 3)).err(), Some(Error::ShapeMismatch));
    assert_eq!(matrix::subtract(&a, &matrix::new(1, 3)).err(), Some(Error::ShapeMismatch));
    assert!(matrix::add(&a, &matrix::new(2, 3)).is_ok());
    assert!(matrix::subtract(&a, &matrix::new(2, 3)).is_ok());
}

#[test]
fn differences_are_taken_entry_by_entry() {
    let a = grid(vec![vec![2.0, 4.0], vec![1.0, 7.0]]);
    let b = grid(vec![vec![1.0, 2.5], vec![3.0, -4.0]]);
    let c = matrix::subtract(&a, &b).unwrap();
    assert_eq!(floats(&c), vec![vec![1.0, 1.5], vec![-2.0, 11.0]]);
}

#[test]
fn adding_and_subtracting_gives_the_first_matrix_back() {
    let mut rng = StdRng::seed_from_u64(2);
    for _ in 0..50 {
        let a = filled(3, 4, &mut rng);
        let b = filled(3, 4, &mut rng);
        let back = matrix::subtract(&matrix::add(&a, &b).unwrap(), &b).unwrap();
        assert_eq!((back.rows, back.columns), (3, 4));
        for (x, y) in floats(&a).iter().flatten().zip(floats(&back).iter().flatten()) {
            assert!((x - y).abs() <= 1.0e-12, "{} {}", x, y);
        }
    }
    // With small whole numbers nothing is rounded and the way back is exact.
    let a = grid(vec![vec![2.0, 4.0], vec![1.0, 7.0]]);
    let b = grid(vec![vec![12.0, -3.0], vec![0.5, 1024.0]]);
    let back = matrix::subtract(&matrix::add(&a, &b).unwrap(), &b).unwrap();
    assert_eq!(back.value, a.value);
}

#[test]
fn a_large_addend_swallows_a_small_one() {
    let a = grid(vec![vec![1.0]]);
    let b = grid(vec![vec![1.0e17]]);
    let back = matrix::subtract(&matrix::add(&a, &b).unwrap(), &b).unwrap();
    assert_eq!(floats(&back), vec![vec![0.0]]);
}

#[test]
fn normalized_entries_have_mean_zero_and_deviation_one() {
    let mut rng = StdRng::seed_from_u64(3);
    for _ in 0..50 {
        let a = filled(4, 5, &mut rng);
        let b = matrix::normalize(&a);
        let mean = f64::from_bits(matrix::mean(&b));
        let deviation = f64::from_bits(matrix::variance(&b, matrix::mean(&b))).sqrt();
        assert!(mean.abs() <= 1.0e-12, "{}", mean);
        assert!((deviation - 1.0).abs() <= 1.0e-12, "{}", deviation);
    }
}

#[test]
fn a_constant_matrix_is_only_shifted() {
    let a = grid(vec![vec![3.5, 3.5, 3.5], vec![3.5, 3.5, 3.5]]);
    let b = matrix::normalize(&a);
    assert_eq!(floats(&b), vec![vec![0.0, 0.0, 0.0], vec![0.0, 0.0, 0.0]]);
    assert_eq!(f64::from_bits(matrix::mean(&b)), 0.0);
    let one = matrix::normalize(&grid(vec![vec![-7.25]]));
    assert_eq!(floats(&one), vec![vec![0.0]]);
}

#[test]
fn activation_leaves_what_is_not_negative() {
    let a = grid(vec![vec![0.0, 2.0, 1.0e-300], vec![f64::INFINITY, 7.5, -0.0]]);
    let once = matrix::activate(&a);
    assert_eq!(once.value, a.value);
    let twice = matrix::activate(&once);
    assert_eq!(twice.value, once.value);
}

#[test]
fn activation_scales_what_is_negative_and_keeps_the_sign() {
    let mut rng = StdRng::seed_from_u64(4);
    for _ in 0..20 {
        let a = filled(3, 3, &mut rng);
        let b = matrix::activate(&a);
        for (x, y) in floats(&a).iter().flatten().zip(floats(&b).iter().flatten()) {
            if *x >= 0.0 {
                assert_eq!(x.to_bits(), y.to_bits());
            } else {
                assert_eq!(*y, 0.25 * x);
                assert!(*y < 0.0);
            }
            assert_eq!(x.is_sign_negative(), y.is_sign_negative());
        }
    }
}

#[test]
fn variance_goes_by_the_mean_it_is_given() {
    let a = grid(vec![vec![2.0, 4.0], vec![1.0, 7.0]]);
    // About 0 the mean square is (4 + 16 + 1 + 49) / 4.
    assert_eq!(f64::from_bits(matrix::variance(&a, 0.0f64.to_bits())), 17.5);
    assert_eq!(f64::from_bits(matrix::variance(&a, 3.5f64.to_bits())), 5.25);
}

#[test]
fn a_noise_matrix_needs_one_draw_for_each_entry() {
    let draws: Vec<u64> = vec![1.0f64.to_bits(); 5];
    assert_eq!(matrix::new_gaussian_noise(2, 3, &draws).err(), Some(Error::ShapeMismatch));
    assert_eq!(matrix::new_gaussian_noise(usize::MAX, 2, &draws).err(), Some(Error::ShapeMismatch));
    let draws: Vec<u64> = (1..=6).map(|v| (v as f64).to_bits()).collect();
    let m = matrix::new_gaussian_noise(2, 3, &draws).unwrap();
    assert_eq!(floats(&m), vec![vec![1.0, 2.0, 3.0], vec![4.0, 5.0, 6.0]]);
    let part = matrix::from_draws(1, 2, &draws, 3);
    assert_eq!(floats(&part), vec![vec![4.0, 5.0]]);
}

#[test]
fn a_constant_matrix_whose_mean_is_rounded_is_scaled_too() {
    // Three times 0.1 is not 0.3 in binary: the mean comes out above 0.1,
    // every entry lies below it by the same amount, and that amount is the
    // deviation by which the entries are divided.
    let a = grid(vec![vec![0.1, 0.1, 0.1]]);
    let mean = f64::from_bits(matrix::mean(&a));
    assert_eq!(mean, (0.1 + 0.1 + 0.1) / 3.0);
    assert!(mean > 0.1);
    let b = matrix::normalize(&a);
    assert_eq!(floats(&b), vec![vec![-1.0, -1.0, -1.0]]);
}
