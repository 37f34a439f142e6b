use lineas::decompose::{LUDecompose, PLUDecompose};
use lineas::{Complex, Matrix};

#[test]
fn closed_form_matches_general_sum() {
    // the 3x3 closed form against the 4x4 sum over orderings of a block
    // matrix with the same determinant
    let a = Matrix::new([[-89, 44, -122], [52, 48, -39], [-26, -102, -112]]);
    let b = Matrix::new([
        [-89, 44, -122, 0],
        [52, 48, -39, 0],
        [-26, -102, -112, 0],
        [0, 0, 0, 1],
    ]);
    assert_eq!(a.determinant(), b.determinant());
    assert_eq!(b.determinant(), 1628210);
}

#[test]
fn closed_form_two_matches_general_sum() {
    let a = Matrix::new([[-68, -23], [-74, 17]]);
    let b = Matrix::new([[-68, -23, 0, 0], [-74, 17, 0, 0], [0, 0, 1, 0], [0, 0, 0, 1]]);
    assert_eq!(a.determinant(), b.determinant());
}

#[test]
fn empty_determinant_is_one() {
    let m: Matrix<0, 0, i64> = Matrix::new([]);
    assert_eq!(m.determinant(), 1);
}

#[test]
fn lu_then_product_on_identity() {
    let a = Matrix::<4, 4, i64>::identity();
    let (l, u) = a.lu_decompose().unwrap();
    assert_eq!(l, a);
    assert_eq!(u, a);
}

#[test]
fn plu_reverse_order() {
    let a = Matrix::new([[0, 0, 2], [0, 3, 0], [4, 0, 0]]);
    let (p, l, u) = a.plu_decompose().unwrap();
    assert_eq!(p * l * u, a);
}

#[test]
fn negate_twice_complex_entries() {
    let m = Matrix::new([[Complex::from_complex(1, -2), Complex::from_imaginary(3)]]);
    assert_eq!(m.conj().conj(), m);
}

#[test]
fn transpose_square_twice() {
    let mut m = Matrix::new([[1, 2], [3, 4]]);
    m.transpose_set();
    m.transpose_set();
    assert_eq!(m, Matrix::new([[1, 2], [3, 4]]));
}

#[test]
fn large_entry_within_exact_bound() {
    let m = Matrix::new([[1_000_000, 0, 0, 0], [0, 1, 0, 0], [0, 0, 1, 0], [0, 0, 0, 1]]);
    assert_eq!(m.determinant(), 1_000_000);
}
