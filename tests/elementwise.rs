use lineas::Matrix;

#[test]
fn elementwise_mult() {
    let lhs1 = Matrix::new([[-58, -41, -37], [-99, -8, -46]]);
    let lhs2 = Matrix::new([[2, -1, 3], [1, 5, 2]]);
    let b = Matrix::new([[-116, 41, -111], [-99, -40, -92]]);
    assert_eq!(lhs1.elem_mult(lhs2), b)
}

#[test]
fn elementwise_mult_assign() {
    let mut lhs1 = Matrix::new([[-58, -41, -37], [-99, -8, -46]]);
    let lhs2 = Matrix::new([[2, -1, 3], [1, 5, 2]]);
    let b = Matrix::new([[-116, 41, -111], [-99, -40, -92]]);
    lhs1.elem_mult_assign(lhs2);
    assert_eq!(lhs1, b)
}

#[test]
fn elementwise_div() {
    let lhs1 = Matrix::new([[-58, -41, -37], [-99, -8, -46]]);
    let lhs2 = Matrix::new([[3, -4, 2], [-7, 1, 12]]);
    let b = Matrix::new([[-19, 10, -18], [14, -8, -3]]);
    assert_eq!(lhs1.elem_div(lhs2), b)
}

#[test]
fn elementwise_div_assign() {
    let mut lhs1 = Matrix::new([[-58, -41, -37], [-99, -8, -46]]);
    let lhs2 = Matrix::new([[3, -4, 2], [-7, 1, 12]]);
    let b = Matrix::new([[-19, 10, -18], [14, -8, -3]]);
    lhs1.elem_div_assign(lhs2);
    assert_eq!(lhs1, b)
}
