use lineas::{Complex, Matrix, Norm};

#[test]
fn vector_ops_real() {
    let lhs1 = Matrix::new([[0, -7, 9]]);
    let lhs2 = Matrix::new([[-5, 3, 6]]);
    assert_eq!(lhs1.dot(lhs2), 33)
}

#[test]
fn vector_ops_mult_equivalence() {
    let lhs1 = Matrix::new([[0, -7, 9]]);
    let lhs2 = Matrix::new([[-5i64, 3, 6]]);
    assert_eq!(lhs1 * lhs2.transpose(), Matrix::new([[33]]))
}

#[test]
fn vector_ops_euclidean() {
    assert_eq!(Matrix::new([[3, 4, 5]]).norm(Norm::Euclidean), 7);
}

#[test]
fn vector_ops_p_norm_equivalence() {
    assert_eq!(Matrix::new([[3, 4, 5]]).norm(Norm::p_norm(2)), 7);
}

#[test]
fn vector_ops_manhattan() {
    assert_eq!(Matrix::new([[1, -2, 3]]).norm(Norm::Manhattan), 6);
}

#[test]
fn vector_ops_p_norm_equivalence_manhattan() {
    assert_eq!(Matrix::new([[1, -2, 3]]).norm(Norm::p_norm(1)), 6);
}

#[test]
fn vector_ops_custom() {
    assert_eq!(Matrix::new([[3, 4, 5]]).norm_by(|_t| 0), 0);
}

#[test]
fn vector_ops_complex() {
    let lhs1 = Matrix::new([[Complex::from_real(2), Complex::from_imaginary(4), Complex::from_real(1)]]);
    let lhs2 = Matrix::new([[Complex::from_complex(-2, 3), Complex::from_real(3), Complex::from_imaginary(-2)]]);
    assert_eq!(lhs1.cdot(lhs2), Complex::from_complex(-4, 8))
}
