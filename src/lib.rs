//! Fixed-size linear algebra: matrices and vectors whose dimensions are part
//! of their type, complex numbers, polynomials, determinants and LU / PLU
//! decomposition, with contracts proved by Verus.
pub mod complex;
pub mod decompose;
pub mod det;
pub mod matrix;
pub mod norm;
pub mod ops;
pub mod polynomial;
pub mod traits;

pub use complex::Complex;
pub use matrix::{BoundsError, ColVector, Matrix, Vector};
pub use norm::Norm;
pub use polynomial::Polynomial;
pub use traits::{Abs, Element, Epsilon, Pows, Trig};
