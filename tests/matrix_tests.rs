use rusticle::linalg::matrix::{decimal_text, Matrix};
use rusticle::linalg::Matrix as ReexportedMatrix;

fn rotation(theta: f64) -> Matrix<f64> {
    Matrix::new(2, 2, vec![theta.cos(), -theta.sin(), theta.sin(), theta.cos()])
}

fn close(a: f64, b: f64) -> bool {
    (a - b).abs() <= 1e-10
}

#[test]
fn creation_and_access() {
    let matrix = Matrix::new(2, 3, vec![1.0, 2.0, 3.0, 4.0, 5.0, 6.0]);
    assert_eq!(matrix.rows(), 2);
    assert_eq!(matrix.cols(), 3);
    assert_eq!(*matrix.get(0, 1), 2.0);
    assert_eq!(*matrix.get(1, 0), 4.0);
    assert_eq!(*matrix.get(1, 2), 6.0);
}

#[test]
fn set_replaces_one_entry() {
    let mut matrix = Matrix::new(2, 2, vec![1.0, 2.0, 3.0, 4.0]);
    matrix.set(0, 1, 5.0);
    assert_eq!(*matrix.get(0, 1), 5.0);
    assert_eq!(*matrix.get(0, 0), 1.0);
    assert_eq!(*matrix.get(1, 0), 3.0);
    assert_eq!(*matrix.get(1, 1), 4.0);
}

#[test]
fn zeros_are_defaults() {
    let zeros: Matrix<f64> = Matrix::zeros(3, 3);
    assert_eq!(zeros.rows(), 3);
    assert_eq!(zeros.cols(), 3);
    for i in 0..3 {
        for j in 0..3 {
            assert_eq!(*zeros.get(i, j), 0.0);
        }
    }
    let empty: ReexportedMatrix<i64> = ReexportedMatrix::zeros(0, 4);
    assert_eq!(empty.rows(), 0);
    assert_eq!(empty.cols(), 4);
}

#[test]
fn entrywise_arithmetic() {
    let a = Matrix::new(2, 2, vec![1.0, 2.0, 3.0, 4.0]);
    let b = Matrix::new(2, 2, vec![5.0, 6.0, 7.0, 8.0]);
    let sum = a.add(&b);
    assert_eq!(*sum.get(0, 0), 6.0);
    assert_eq!(*sum.get(1, 1), 12.0);
    let diff = a.sub(&b);
    assert_eq!(*diff.get(0, 1), -4.0);
    assert_eq!(*diff.get(1, 0), -4.0);
    let neg = a.neg();
    assert_eq!(*neg.get(0, 0), -1.0);
    assert_eq!(*neg.get(1, 1), -4.0);
}

#[test]
fn product_sums_rows_times_columns() {
    let a = Matrix::new(2, 2, vec![1.0, 2.0, 3.0, 4.0]);
    let b = Matrix::new(2, 2, vec![5.0, 6.0, 7.0, 8.0]);
    let product = a.mul(&b);
    assert_eq!(*product.get(0, 0), 19.0);
    assert_eq!(*product.get(0, 1), 22.0);
    assert_eq!(*product.get(1, 0), 43.0);
    assert_eq!(*product.get(1, 1), 50.0);
}

#[test]
fn product_of_rectangular_matrices() {
    let a: Matrix<i64> = Matrix::new(2, 3, vec![1, 2, 3, 4, 5, 6]);
    let b: Matrix<i64> = Matrix::new(3, 1, vec![7, 8, 9]);
    let product = a.mul(&b);
    assert_eq!(product.rows(), 2);
    assert_eq!(product.cols(), 1);
    assert_eq!(*product.get(0, 0), 50);
    assert_eq!(*product.get(1, 0), 122);
}

#[test]
fn identity_times_matrix_is_matrix() {
    let identity: Matrix<i64> = Matrix::identity(2, 1);
    let m: Matrix<i64> = Matrix::new(2, 3, vec![3, -1, 4, 1, -5, 9]);
    let product = identity.mul(&m);
    assert_eq!(product.rows(), 2);
    assert_eq!(product.cols(), 3);
    for i in 0..2 {
        for j in 0..3 {
            assert_eq!(*product.get(i, j), *m.get(i, j));
        }
    }
}

#[test]
fn identity_has_one_on_the_diagonal() {
    let identity: Matrix<f64> = Matrix::identity(3, 1.0);
    assert_eq!(*identity.get(0, 0), 1.0);
    assert_eq!(*identity.get(1, 1), 1.0);
    assert_eq!(*identity.get(2, 2), 1.0);
    assert_eq!(*identity.get(0, 1), 0.0);
    assert_eq!(*identity.get(2, 1), 0.0);
}

#[test]
fn conjugate_transpose_swaps_and_maps() {
    let m: Matrix<i64> = Matrix::new(2, 3, vec![1, 2, 3, 4, 5, 6]);
    let ct = m.conjugate_transpose(|x: i64| -x);
    assert_eq!(ct.rows(), 3);
    assert_eq!(ct.cols(), 2);
    assert_eq!(*ct.get(0, 0), -1);
    assert_eq!(*ct.get(0, 1), -4);
    assert_eq!(*ct.get(1, 0), -2);
    assert_eq!(*ct.get(2, 1), -6);
}

#[test]
fn conjugate_transpose_twice_is_the_matrix() {
    let m: Matrix<i64> = Matrix::new(2, 3, vec![1, 2, 3, 4, 5, 6]);
    let back = m.conjugate_transpose(|x: i64| -x).conjugate_transpose(|x: i64| -x);
    assert_eq!(back.rows(), 2);
    assert_eq!(back.cols(), 3);
    for i in 0..2 {
        for j in 0..3 {
            assert_eq!(*back.get(i, j), *m.get(i, j));
        }
    }
}

#[test]
fn matrix_times_vector() {
    let m = Matrix::new(2, 2, vec![2.0, 3.0, 1.0, 4.0]);
    let r = m.mul_vector(&vec![1.0, 2.0]);
    assert_eq!(r, vec![8.0, 9.0]);
    let wide: Matrix<i64> = Matrix::new(1, 3, vec![1, 2, 3]);
    assert_eq!(wide.mul_vector(&vec![4, 5, 6]), vec![32]);
}

#[test]
fn rotation_is_unitary() {
    let m = rotation(std::f64::consts::PI / 4.0);
    assert!(m.is_unitary(1.0, |x: f64| x, close));
    let m = rotation(1.0);
    assert!(m.is_unitary(1.0, |x: f64| x, close));
}

#[test]
fn scaled_matrix_is_not_unitary() {
    let m = Matrix::new(2, 2, vec![1.0, 2.0, 3.0, 4.0]);
    assert!(!m.is_unitary(1.0, |x: f64| x, close));
}

#[test]
fn non_square_is_never_unitary() {
    let m = Matrix::new(1, 2, vec![1.0, 0.0]);
    assert!(!m.is_unitary(1.0, |x: f64| x, |_a: f64, _b: f64| true));
    let m: Matrix<f64> = Matrix::zeros(3, 2);
    assert!(!m.is_unitary(1.0, |x: f64| x, |_a: f64, _b: f64| true));
}

#[test]
fn identity_is_unitary() {
    let identity: Matrix<f64> = Matrix::identity(4, 1.0);
    assert!(identity.is_unitary(1.0, |x: f64| x, close));
}

#[test]
fn layout_lists_rows() {
    let m: Matrix<i64> = Matrix::new(2, 3, vec![1, -2, 3, 4, 5, 60]);
    let cells: Vec<String> = vec![1, -2, 3, 4, 5, 60].iter().map(|x: &i64| x.to_string()).collect();
    assert_eq!(m.layout(&cells), "Matrix(2x3)\n1 -2 3 \n4 5 60 \n");
    let empty: Matrix<i64> = Matrix::new(0, 12, Vec::new());
    assert_eq!(empty.layout(&Vec::new()), "Matrix(0x12)\n");
}

#[test]
fn decimal_digits() {
    assert_eq!(decimal_text(0), "0");
    assert_eq!(decimal_text(7), "7");
    assert_eq!(decimal_text(10), "10");
    assert_eq!(decimal_text(1234567890), "1234567890");
    assert_eq!(decimal_text(usize::MAX), usize::MAX.to_string());
}
