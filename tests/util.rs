use lineas::{Complex, Matrix, Norm};

#[test]
fn util_conjugate() {
    let lhs = Matrix::new([[1, 2, 3], [4, 5, 6]]);
    let rhs = Matrix::new([
        [Complex::from_real(1), Complex::from_real(2), Complex::from_real(3)],
        [Complex::from_real(4), Complex::from_real(5), Complex::from_real(6)],
    ]);
    assert_eq!(lhs.conj(), rhs)
}

#[test]
fn util_double_conjugate() {
    let lhs = Matrix::new([[1, 2, 3], [4, 5, 6]]);
    let rhs = Matrix::new([
        [Complex::from_real(1), Complex::from_real(2), Complex::from_real(3)],
        [Complex::from_real(4), Complex::from_real(5), Complex::from_real(6)],
    ]);
    assert_eq!(lhs.conj().conj(), rhs)
}

#[test]
fn util_conjugate_complex() {
    let lhs = Matrix::new([
        [Complex::from_complex(1, 2), Complex::from_complex(12, -2), Complex::from_imaginary(9)],
        [Complex::from_imaginary(-7), Complex::from_complex(5, -5), Complex::from_complex(1, 2)],
    ]);
    let rhs = Matrix::new([
        [Complex::from_complex(1, -2), Complex::from_complex(12, 2), Complex::from_imaginary(-9)],
        [Complex::from_imaginary(7), Complex::from_complex(5, 5), Complex::from_complex(1, -2)],
    ]);
    assert_eq!(lhs.conj(), rhs)
}

#[test]
fn util_double_conjugate_complex() {
    let lhs = Matrix::new([
        [Complex::from_complex(1, 2), Complex::from_complex(12, -2), Complex::from_imaginary(9)],
        [Complex::from_imaginary(-7), Complex::from_complex(5, -5), Complex::from_complex(1, 2)],
    ]);
    assert_eq!(lhs, lhs.conj().conj())
}

#[test]
fn comp_abs() {
    let lhs = Matrix::new([
        [Complex::from_imaginary(5i64), Complex::from_complex(3, -2)],
        [Complex::from_complex(1, -3), Complex::from_real(1)],
    ]);
    let rhs = Matrix::new([
        [Complex::from_imaginary(5), Complex::from_complex(3, 2)],
        [Complex::from_complex(1, 3), Complex::from_real(1)],
    ]);
    assert_eq!(lhs.c_abs(), rhs)
}

#[test]
fn min() {
    assert_eq!(Matrix::new([[-95, 18, -22], [20, -40, -9], [30, -68, 87]]).min(), -95)
}

#[test]
fn max() {
    assert_eq!(Matrix::new([[-88, 90, -17], [-75, 71, -78], [-74, -70, -28]]).max(), 90)
}

#[test]
fn min_max() {
    assert_eq!(
        Matrix::new([[-88, 90, -17], [-75, 71, -78], [-74, -70, -28]]).min_max(),
        (-88, 90)
    )
}

#[test]
fn min_row_euclidean() {
    assert_eq!(
        Matrix::new([[-31, 98, 91], [92, 105, 32], [52, 21, 83]]).min_row(Norm::Euclidean),
        Matrix::new([[52, 21, 83]])
    )
}

#[test]
fn max_row_euclidean() {
    assert_eq!(
        Matrix::new([[-4, 82, 76], [73, -106, -110], [2, 25, 80]]).min_row(Norm::Euclidean),
        Matrix::new([[2, 25, 80]])
    )
}

#[test]
fn max_row_euclidean_largest() {
    assert_eq!(
        Matrix::new([[-4, 82, 76], [73, -106, -110], [2, 25, 80]]).max_row(Norm::Euclidean),
        Matrix::new([[73, -106, -110]])
    )
}

#[test]
fn min_max_row_manhattan() {
    // Manhattan norms of the rows: 149, 192, 124
    assert_eq!(
        Matrix::new([[6, -120, 23], [-72, -32, -88], [102, 2, -20]]).min_max_row(Norm::Manhattan),
        (Matrix::new([[102, 2, -20]]), Matrix::new([[-72, -32, -88]]))
    )
}

#[test]
fn row_ties_keep_first() {
    let m = Matrix::new([[3, 4], [4, 3], [0, 5]]);
    assert_eq!(m.max_row(Norm::Manhattan), Matrix::new([[3, 4]]));
    assert_eq!(m.min_row(Norm::Euclidean), Matrix::new([[3, 4]]));
}

#[test]
fn custom_norm_rows() {
    // largest component as the norm
    let largest = |t: Vec<i64>| t.iter().copied().max().unwrap_or(0);
    let m = Matrix::new([[1, 9, 2], [3, 4, 5], [9, 0, 0]]);
    assert_eq!(m.max_row_by(largest), Matrix::new([[1, 9, 2]]));
    assert_eq!(m.min_row_by(largest), Matrix::new([[3, 4, 5]]));
}
