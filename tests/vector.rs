use lineas::{Complex, Matrix, Norm, Pows};

#[test]
fn vector_real() {
    let lhs1 = Matrix::new([[0, -7, 9]]);
    let lhs2 = Matrix::new([[-5, 3, 6]]);
    assert_eq!(lhs1.dot(lhs2), 33)
}

#[test]
fn vector_mult_equivalence() {
    let lhs1 = Matrix::new([[0, -7, 9]]);
    let lhs2 = Matrix::new([[-5i64, 3, 6]]);
    assert_eq!(lhs1 * lhs2.transpose(), Matrix::new([[33]]))
}

#[test]
fn vector_euclidean() {
    assert_eq!(Matrix::new([[3, 4, 5]]).norm(Norm::Euclidean), 7);
}

#[test]
fn vector_p_norm_equivalence() {
    assert_eq!(Matrix::new([[3, 4, 5]]).norm(Norm::p_norm(2)), 7);
}

#[test]
fn vector_manhattan() {
    assert_eq!(Matrix::new([[1, -2, 3]]).norm(Norm::Manhattan), 6);
}

#[test]
fn vector_p_norm_equivalence_manhattan() {
    assert_eq!(Matrix::new([[1, -2, 3]]).norm(Norm::p_norm(1)), 6);
}

#[test]
fn p_norm() {
    assert_eq!(Matrix::new([[5, 6, 7]]).norm(Norm::p_norm(3)), 8)
}

#[test]
fn magnitude() {
    assert_eq!(Matrix::new([[3, 4]]).magnitude(), 5)
}

#[test]
fn vector_custom() {
    assert_eq!(Matrix::new([[3, 4, 5]]).norm_by(|_t| 0), 0);
}

#[test]
fn custom_largest_component() {
    let largest = |t: Vec<i64>| t.iter().copied().max().unwrap_or(0);
    assert_eq!(Matrix::new([[3, 9, 5]]).norm_by(largest), 9);
}

#[test]
fn cross() {
    let lhs1 = Matrix::new([[1, 2, 3]]);
    let lhs2 = Matrix::new([[-4, 9, 0]]);
    let rhs = Matrix::new([[-27, -12, 17]]);
    assert_eq!(lhs1.cross(lhs2), rhs)
}

#[test]
fn vector_complex() {
    let lhs1 = Matrix::new([[Complex::from_real(2), Complex::from_imaginary(4), Complex::from_real(1)]]);
    let lhs2 = Matrix::new([[Complex::from_complex(-2, 3), Complex::from_real(3), Complex::from_imaginary(-2)]]);
    assert_eq!(lhs1.cdot(lhs2), Complex::from_complex(-4, 8))
}

#[test]
fn first_root_of_negative() {
    assert_eq!((-27i64).root_n(3), -3);
    assert_eq!((i64::MIN + 1).root_n(1), i64::MIN + 1);
}
