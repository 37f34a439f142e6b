use lineas::decompose::{LUDecompose, PLUDecompose};
use lineas::Matrix;

#[test]
fn decompose_correct() {
    let a = Matrix::new([[2, -8, 4], [1, -1, 11], [-3, 10, -8]]);
    let l_check = Matrix::new([[2, 0, 0], [1, 3, 0], [-3, -2, 4]]);
    let u_check = Matrix::new([[1, -4, 2], [0, 1, 3], [0, 0, 1]]);
    let (l, u) = a.lu_decompose().unwrap();
    assert_eq!(l, l_check);
    assert_eq!(u, u_check);
    assert_eq!(l * u, a)
}

#[test]
fn incorrect() {
    let a = Matrix::new([[0, 1], [1, 1]]);
    assert!(a.lu_decompose().is_none())
}

#[test]
fn decompose_correct_plu() {
    let a = Matrix::new([[0, 1], [1, 1]]);
    let p_check = Matrix::new([[0, 1], [1, 0]]);
    let l_check = Matrix::new([[1, 0], [0, 1]]);
    let u_check = Matrix::new([[1, 1], [0, 1]]);
    let (p, l, u) = a.plu_decompose().unwrap();
    assert_eq!(p, p_check);
    assert_eq!(l, l_check);
    assert_eq!(u, u_check);
    assert_eq!(p * l * u, a)
}

#[test]
fn plu_cyclic_rows() {
    // rows (1, 2, 0) of `a` are the first ordering with nonzero pivots
    let a = Matrix::new([[0, 0, 1], [1, 0, 0], [0, 1, 0]]);
    let (p, l, u) = a.plu_decompose().unwrap();
    assert_eq!(p * (l * u), a);
    assert_eq!(p, Matrix::new([[0, 0, 1], [1, 0, 0], [0, 1, 0]]));
}

#[test]
fn plu_none_for_zero_matrix() {
    let a = Matrix::new([[0, 0], [0, 0]]);
    assert!(a.plu_decompose().is_none())
}

#[test]
fn lu_product_restores_matrix() {
    let a = Matrix::new([[2, 4, 6], [8, 7, 15], [-4, 4, 5]]);
    let (l, u) = a.lu_decompose().unwrap();
    assert_eq!(l * u, a)
}
