use lineas::{Abs, Complex};

#[test]
fn complex_mult() {
    let lhs1 = Complex::from_complex(1, 2);
    let lhs2 = Complex::from_complex(3, 4);
    let rhs = Complex::from_complex(-5, 10);
    assert_eq!(lhs1 * lhs2, rhs)
}

#[test]
fn complex_div_exact() {
    let lhs1 = Complex::from_complex(-5, 10);
    let lhs2 = Complex::from_complex(3, 4);
    assert_eq!(lhs1 / lhs2, Complex::from_complex(1, 2))
}

#[test]
fn complex_div_rounds_toward_zero() {
    // (1 + 2i)(3 - 4i) = 11 + 2i, over 25
    let lhs1 = Complex::from_complex(1, 2);
    let lhs2 = Complex::from_complex(3, 4);
    assert_eq!(lhs1 / lhs2, Complex::from_complex(0, 0))
}

#[test]
fn complex_add() {
    let lhs1 = Complex::from_complex(1, 2);
    let lhs2 = Complex::from_complex(3, 4);
    let rhs = Complex::from_complex(4, 6);
    assert_eq!(lhs1 + lhs2, rhs)
}

#[test]
fn complex_sub() {
    let lhs1 = Complex::from_complex(1, 2);
    let lhs2 = Complex::from_complex(3, 4);
    let rhs = Complex::from_complex(-2, -2);
    assert_eq!(lhs1 - lhs2, rhs)
}

#[test]
fn complex_neg() {
    let lhs = Complex::from_complex(-5, 7);
    let rhs = Complex::from_complex(5, -7);
    assert_eq!(-lhs, rhs)
}

#[test]
fn complex_abs() {
    let lhs = Complex::from_complex(3i64, 4);
    assert_eq!(lhs.absolute(), Complex::from_real(5))
}

#[test]
fn complex_abs_rounds_down() {
    let lhs = Complex::from_complex(1i64, 1);
    assert_eq!(lhs.absolute(), Complex::from_real(1))
}

#[test]
fn element_abs() {
    let lhs = Complex::from_complex(-9i64, 12);
    let rhs = Complex::from_complex(9, 12);
    assert_eq!(lhs.element_abs(), rhs)
}

#[test]
fn conj() {
    let lhs = Complex::from_complex(12, -9);
    let rhs = Complex::from_complex(12, 9);
    assert_eq!(lhs.conj(), rhs)
}

#[test]
fn accessors() {
    let c = Complex::from_complex(12i64, -9);
    assert_eq!(c.real_part(), 12);
    assert_eq!(c.imag(), -9);
    assert_eq!(Complex::from_imaginary(-3i64), Complex::from_complex(0, -3));
    assert_eq!(Complex::from_real(1i64), Complex::from_complex(1, 0));
}

#[test]
fn complex_mult_assign() {
    let mut lhs1 = Complex::from_complex(1, 2);
    let lhs2 = Complex::from_complex(3, 4);
    let rhs = Complex::from_complex(-5, 10);
    lhs1.mul_assign(lhs2);
    assert_eq!(lhs1, rhs)
}

#[test]
fn complex_div_assign() {
    let mut lhs1 = Complex::from_complex(-5, 10);
    let lhs2 = Complex::from_complex(3, 4);
    lhs1.div_assign(lhs2);
    assert_eq!(lhs1, Complex::from_complex(1, 2))
}

#[test]
fn complex_add_assign() {
    let mut lhs1 = Complex::from_complex(1, 2);
    let lhs2 = Complex::from_complex(3, 4);
    let rhs = Complex::from_complex(4, 6);
    lhs1.add_assign(lhs2);
    assert_eq!(lhs1, rhs)
}

#[test]
fn complex_sub_assign() {
    let mut lhs1 = Complex::from_complex(1, 2);
    let lhs2 = Complex::from_complex(3, 4);
    let rhs = Complex::from_complex(-2, -2);
    lhs1.sub_assign(lhs2);
    assert_eq!(lhs1, rhs)
}
