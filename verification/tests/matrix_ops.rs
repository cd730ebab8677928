//! Matrix-level behaviour with the scalar words read as IEEE-754 doubles.

use neural_network::matrix::{Matrix, MatrixError};

fn fadd(a: u64, b: u64) -> u64 {
    (f64::from_bits(a) + f64::from_bits(b)).to_bits()
}

fn fsub(a: u64, b: u64) -> u64 {
    (f64::from_bits(a) - f64::from_bits(b)).to_bits()
}

fn fmul(a: u64, b: u64) -> u64 {
    (f64::from_bits(a) * f64::from_bits(b)).to_bits()
}

fn fmac(acc: u64, x: u64, y: u64) -> u64 {
    (f64::from_bits(acc) + f64::from_bits(x) * f64::from_bits(y)).to_bits()
}

fn bits(v: &[f64]) -> Vec<u64> {
    v.iter().map(|x| x.to_bits()).collect()
}

fn floats(v: &[u64]) -> Vec<f64> {
    v.iter().map(|x| f64::from_bits(*x)).collect()
}

#[test]
fn add_preserves_shape_and_adds_entries() {
    let a = Matrix::new(2, 3, bits(&[1.0, 2.0, 3.0, 4.0, 5.0, 6.0]));
    let b = Matrix::new(2, 3, bits(&[0.5, 1.5, 2.5, 3.5, 4.5, 5.5]));
    let r = a.add(&b, fadd).unwrap();
    assert_eq!(r.rows, 2);
    assert_eq!(r.cols, 3);
    assert_eq!(floats(&r.data), vec![1.5, 3.5, 5.5, 7.5, 9.5, 11.5]);
}

#[test]
fn add_rejects_shape_mismatch() {
    let a = Matrix::zeros(2, 3);
    let b = Matrix::zeros(3, 2);
    assert_eq!(a.add(&b, fadd), Err(MatrixError::DimensionMismatch));
}

#[test]
fn subtract_subtracts_entries() {
    let a = Matrix::new(2, 2, bits(&[5.0, 4.0, 3.0, 2.0]));
    let b = Matrix::new(2, 2, bits(&[1.0, 1.5, 2.0, 2.5]));
    let r = a.subtract(&b, fsub).unwrap();
    assert_eq!(floats(&r.data), vec![4.0, 2.5, 1.0, -0.5]);
}

#[test]
fn subtract_rejects_shape_mismatch() {
    let a = Matrix::zeros(1, 2);
    let b = Matrix::zeros(2, 1);
    assert_eq!(a.subtract(&b, fsub), Err(MatrixError::DimensionMismatch));
}

#[test]
fn elementwise_multiply_is_hadamard() {
    let a = Matrix::new(2, 2, bits(&[1.0, 2.0, 3.0, 4.0]));
    let b = Matrix::new(2, 2, bits(&[2.0, 0.5, -1.0, 0.25]));
    let r = a.elementwise_multiply(&b, fmul).unwrap();
    assert_eq!(floats(&r.data), vec![2.0, 1.0, -3.0, 1.0]);
}

#[test]
fn dot_multiply_matches_textbook_product() {
    let a = Matrix::new(2, 3, bits(&[1.0, 2.0, 3.0, 4.0, 5.0, 6.0]));
    let b = Matrix::new(3, 2, bits(&[7.0, 8.0, 9.0, 10.0, 11.0, 12.0]));
    let r = a.dot_multiply(&b, fmac).unwrap();
    assert_eq!(r.rows, 2);
    assert_eq!(r.cols, 2);
    assert_eq!(floats(&r.data), vec![58.0, 64.0, 139.0, 154.0]);
}

#[test]
fn dot_multiply_rejects_dimension_mismatch() {
    let a = Matrix::zeros(2, 3);
    let b = Matrix::zeros(2, 2);
    assert_eq!(a.dot_multiply(&b, fmac), Err(MatrixError::DimensionMismatch));
}

#[test]
fn transpose_moves_entries() {
    let a = Matrix::new(2, 3, bits(&[1.0, 2.0, 3.0, 4.0, 5.0, 6.0]));
    let t = a.transpose();
    assert_eq!(t.rows, 3);
    assert_eq!(t.cols, 2);
    assert_eq!(floats(&t.data), vec![1.0, 4.0, 2.0, 5.0, 3.0, 6.0]);
}

#[test]
fn transpose_twice_is_identity() {
    let a = Matrix::new(2, 3, bits(&[1.0, -2.0, 3.5, 0.0, 5.25, -6.125]));
    assert!(a.transpose().transpose() == a);
}

#[test]
fn map_applies_to_every_entry() {
    let a = Matrix::new(2, 2, bits(&[1.0, 2.0, 3.0, 4.0]));
    let r = a.map(|x: u64| (f64::from_bits(x) * 0.5).to_bits());
    assert_eq!(floats(&r.data), vec![0.5, 1.0, 1.5, 2.0]);
}

#[test]
fn zeros_is_all_zero_words() {
    let z = Matrix::zeros(3, 2);
    assert_eq!(z.rows, 3);
    assert_eq!(z.cols, 2);
    assert_eq!(z.data, vec![0u64; 6]);
    assert_eq!(floats(&z.data), vec![0.0; 6]);
}

#[test]
fn random_draws_every_word_from_the_generator() {
    let r = Matrix::random(4, 5, || 0.25f64.to_bits());
    assert_eq!(r.rows, 4);
    assert_eq!(r.cols, 5);
    assert!(r.data.iter().all(|w| f64::from_bits(*w) == 0.25));
}

#[test]
fn from_vec_builds_a_column() {
    let m = Matrix::from(bits(&[1.0, 2.0, 3.0]));
    assert_eq!(m.rows, 3);
    assert_eq!(m.cols, 1);
    assert_eq!(floats(&m.data), vec![1.0, 2.0, 3.0]);
}

#[test]
fn equality_is_structural() {
    let a = Matrix::new(2, 2, bits(&[1.0, 2.0, 3.0, 4.0]));
    let b = Matrix::new(2, 2, bits(&[1.0, 2.0, 3.0, 4.0]));
    let c = Matrix::new(2, 2, bits(&[1.0, 2.0, 3.0, 5.0]));
    let d = Matrix::new(4, 1, bits(&[1.0, 2.0, 3.0, 4.0]));
    assert!(a == b);
    assert!(a != c);
    assert!(a != d);
}
