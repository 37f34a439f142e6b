use lineas::Matrix;

#[test]
fn identity() {
    let lhs = Matrix::<3, 3, i64>::identity();
    let rhs = Matrix::new([[1, 0, 0], [0, 1, 0], [0, 0, 1]]);
    assert_eq!(lhs, rhs)
}

#[test]
fn empty() {
    let lhs = Matrix::<3, 4, i64>::empty();
    let rhs = Matrix::new([[0, 0, 0, 0], [0, 0, 0, 0], [0, 0, 0, 0]]);
    assert_eq!(lhs, rhs)
}
