use lineas::Polynomial;

#[test]
fn polynomials_add() {
    let lhs1 = Polynomial::new(vec![1, 2, 3]);
    let lhs2 = Polynomial::new(vec![-5, 3, 10]);
    let rhs = Polynomial::new(vec![-4, 5, 13]);
    assert_eq!(lhs1 + lhs2, rhs)
}

#[test]
fn polynomials_add_zero_last_2() {
    let lhs1 = Polynomial::new(vec![2, 0, 5, -6]);
    let lhs2 = Polynomial::new(vec![-2, 0, 1, 3]);
    let rhs = Polynomial::new(vec![6, -3]);
    assert_eq!(lhs1 + lhs2, rhs)
}

#[test]
fn polynomials_add_literal() {
    let lhs1 = Polynomial::new(vec![1, 2, 3]);
    let lhs2 = 10;
    let rhs = Polynomial::new(vec![1, 2, 13]);
    assert_eq!(lhs1 + lhs2, rhs)
}

#[test]
fn polynomials_add_zero_last_2_literal() {
    let lhs1 = Polynomial::new(vec![0, 0, 5, -6]);
    let lhs2 = 4;
    let rhs = Polynomial::new(vec![5, -2]);
    assert_eq!(lhs1 + lhs2, rhs)
}

#[test]
fn polynomials_add_different_lengths() {
    let lhs1 = Polynomial::new(vec![1, 0, 0, 0]);
    let lhs2 = Polynomial::new(vec![2, 3]);
    assert_eq!(lhs1 + lhs2, Polynomial::new(vec![1, 0, 2, 3]))
}

#[test]
fn polynomials_sub() {
    let lhs1 = Polynomial::new(vec![1, 2, 3]);
    let lhs2 = Polynomial::new(vec![-5, 3, 10]);
    let rhs = Polynomial::new(vec![6, -1, -7]);
    assert_eq!(lhs1 - lhs2, rhs)
}

#[test]
fn polynomials_sub_zero_last_2() {
    let lhs1 = Polynomial::new(vec![2, 0, 5, -6]);
    let lhs2 = Polynomial::new(vec![2, 0, 1, 3]);
    let rhs = Polynomial::new(vec![4, -9]);
    assert_eq!(lhs1 - lhs2, rhs)
}

#[test]
fn polynomials_sub_literal() {
    let lhs1 = Polynomial::new(vec![1, 2, 3]);
    let lhs2 = 10;
    let rhs = Polynomial::new(vec![1, 2, -7]);
    assert_eq!(lhs1 - lhs2, rhs)
}

#[test]
fn polynomials_sub_zero_last_2_literal() {
    let lhs1 = Polynomial::new(vec![0, 0, 5, -6]);
    let lhs2 = 4;
    let rhs = Polynomial::new(vec![5, -10]);
    assert_eq!(lhs1 - lhs2, rhs)
}

#[test]
fn polynomials_mult() {
    let lhs1 = Polynomial::new(vec![1, -2, 3]);
    let lhs2 = Polynomial::new(vec![4, 5, -6]);
    let rhs = Polynomial::new(vec![4, -3, -4, 27, -18]);
    assert_eq!(lhs1 * lhs2, rhs)
}

#[test]
fn polynomials_mult_second() {
    let lhs1 = Polynomial::new(vec![2, 5, -6]);
    let lhs2 = Polynomial::new(vec![4, 1, 3]);
    let rhs = Polynomial::new(vec![8, 22, -13, 9, -18]);
    assert_eq!(lhs1 * lhs2, rhs)
}

#[test]
fn polynomials_mult_literal() {
    let lhs1 = Polynomial::new(vec![1, 2, 3]);
    let lhs2 = -4;
    let rhs = Polynomial::new(vec![-4, -8, -12]);
    assert_eq!(lhs1 * lhs2, rhs)
}

#[test]
fn polynomials_neg() {
    let lhs = Polynomial::new(vec![2, 9, 4, -5]);
    let rhs = Polynomial::new(vec![-2, -9, -4, 5]);
    assert_eq!(-lhs, rhs)
}

#[test]
fn minify() {
    let example = Polynomial::new(vec![0i64, 0, 4, 2]);
    assert_eq!(example.minify(), Polynomial::new(vec![4, 2]))
}

#[test]
fn degree() {
    assert_eq!(Polynomial::new(vec![0i64, 4, 3]).degree(), 1)
}

#[test]
fn polynomials_add_assign() {
    let mut lhs1 = Polynomial::new(vec![1, 2, 3]);
    let lhs2 = Polynomial::new(vec![-5, 3, 10]);
    let rhs = Polynomial::new(vec![-4, 5, 13]);
    lhs1.add_assign(lhs2);
    assert_eq!(lhs1, rhs)
}

#[test]
fn polynomials_add_assign_zero_last_2() {
    let mut lhs1 = Polynomial::new(vec![2, 0, 5, -6]);
    let lhs2 = Polynomial::new(vec![-2, 0, 1, 3]);
    let rhs = Polynomial::new(vec![6, -3]);
    lhs1.add_assign(lhs2);
    assert_eq!(lhs1, rhs)
}

#[test]
fn polynomials_add_assign_literal() {
    let mut lhs1 = Polynomial::new(vec![1, 2, 3]);
    let rhs = Polynomial::new(vec![1, 2, 13]);
    lhs1.add_assign_const(10);
    assert_eq!(lhs1, rhs)
}

#[test]
fn polynomials_add_assign_zero_last_2_literal() {
    let mut lhs1 = Polynomial::new(vec![0, 0, 5, -6]);
    let rhs = Polynomial::new(vec![5, -2]);
    lhs1.add_assign_const(4);
    assert_eq!(lhs1, rhs)
}

#[test]
fn polynomials_sub_assign() {
    let mut lhs1 = Polynomial::new(vec![1, 2, 3]);
    let lhs2 = Polynomial::new(vec![-5, 3, 10]);
    let rhs = Polynomial::new(vec![6, -1, -7]);
    lhs1.sub_assign(lhs2);
    assert_eq!(lhs1, rhs)
}

#[test]
fn polynomials_sub_assign_zero_last_2() {
    let mut lhs1 = Polynomial::new(vec![2, 0, 5, -6]);
    let lhs2 = Polynomial::new(vec![2, 0, 1, 3]);
    let rhs = Polynomial::new(vec![4, -9]);
    lhs1.sub_assign(lhs2);
    assert_eq!(lhs1, rhs)
}

#[test]
fn polynomials_sub_assign_literal() {
    let mut lhs1 = Polynomial::new(vec![1, 2, 3]);
    let rhs = Polynomial::new(vec![1, 2, -7]);
    lhs1.sub_assign_const(10);
    assert_eq!(lhs1, rhs)
}

#[test]
fn polynomials_sub_assign_zero_last_2_literal() {
    let mut lhs1 = Polynomial::new(vec![0, 0, 5, -6]);
    let rhs = Polynomial::new(vec![5, -10]);
    lhs1.sub_assign_const(4);
    assert_eq!(lhs1, rhs)
}

#[test]
fn polynomials_mult_assign() {
    let mut lhs1 = Polynomial::new(vec![2, 5, -6]);
    let lhs2 = Polynomial::new(vec![4, 1, 3]);
    let rhs = Polynomial::new(vec![8, 22, -13, 9, -18]);
    lhs1.mul_assign(lhs2);
    assert_eq!(lhs1, rhs)
}

#[test]
fn polynomials_mult_assign_literal() {
    let mut lhs1 = Polynomial::new(vec![1, 3, -4]);
    let rhs = Polynomial::new(vec![2, 6, -8]);
    lhs1.mul_assign_const(2);
    assert_eq!(lhs1, rhs)
}
