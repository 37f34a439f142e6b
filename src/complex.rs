//! Complex numbers with parts of any element type.
use vstd::prelude::*;
use crate::matrix::{lemma_grid_ext, trunc_div, Matrix};
use crate::traits::{is_nth_root, int_pow, Abs, Element, Epsilon, Pows};

verus! {

/// A complex number `real + imaginary·i`.
#[derive(Clone, Copy, Debug, PartialEq, Eq)]
pub struct Complex<L> {
    pub real: L,
    pub imaginary: L,
}

impl<L: Copy> Complex<L> {
    /// The complex number with the given parts.
    pub fn from_complex(r: L, i: L) -> (c: Self)
        ensures
            c.real == r,
            c.imaginary == i,
    {
        Complex { real: r, imaginary: i }
    }

    /// The real part.
    pub fn real_part(&self) -> (r: L)
        ensures
            r == self.real,
    {
        self.real
    }

    /// The imaginary part.
    pub fn imag(&self) -> (r: L)
        ensures
            r == self.imaginary,
    {
        self.imaginary
    }
}

impl<L: Element> Complex<L> {
    /// The complex number with real part `r` and imaginary part zero.
    pub fn from_real(r: L) -> (c: Self)
        ensures
            c.real == r,
            c.imaginary == L::spec_zero(),
    {
        Complex { real: r, imaginary: L::zero() }
    }

    /// The complex number with real part zero and imaginary part `i`.
    pub fn from_imaginary(i: L) -> (c: Self)
        ensures
            c.real == L::spec_zero(),
            c.imaginary == i,
    {
        Complex { real: L::zero(), imaginary: i }
    }
}

impl<L: Abs + Copy> Complex<L> {
    /// The absolute value of each part on its own (not the modulus).
    pub fn element_abs(&self) -> (c: Self)
        requires
            self.real.abs_defined(),
            self.imaginary.abs_defined(),
        ensures
            c.real == self.real.spec_abs(),
            c.imaginary == self.imaginary.spec_abs(),
    {
        Complex { real: self.real.absolute(), imaginary: self.imaginary.absolute() }
    }
}

impl<L: Element> Element for Complex<L> {
    open spec fn spec_zero() -> Self {
        Complex { real: L::spec_zero(), imaginary: L::spec_zero() }
    }

    open spec fn spec_one() -> Self {
        Complex { real: L::spec_one(), imaginary: L::spec_zero() }
    }

    fn zero() -> (r: Self) {
        Complex { real: L::zero(), imaginary: L::zero() }
    }

    fn one() -> (r: Self) {
        Complex { real: L::one(), imaginary: L::zero() }
    }
}

impl<L: Epsilon + Copy> Epsilon for Complex<L> {
    open spec fn spec_epsilon(&self) -> Self {
        Complex { real: self.real.spec_epsilon(), imaginary: self.imaginary.spec_epsilon() }
    }

    fn epsilon(&self) -> (r: Self) {
        Complex { real: self.real.epsilon(), imaginary: self.imaginary.epsilon() }
    }
}

pub open spec fn fits(x: int) -> bool {
    i64::MIN <= x <= i64::MAX
}

/// The complex product `(a + bi)(c + di) = (ac - bd) + (ad + bc)i`, on
/// mathematical integers.
pub open spec fn product_parts(x: Complex<i64>, y: Complex<i64>) -> (int, int) {
    (x.real * y.real - x.imaginary * y.imaginary, x.imaginary * y.real + x.real * y.imaginary)
}

/// Every product and sum that `x · y` computes fits in an `i64`.
pub open spec fn product_fits(x: Complex<i64>, y: Complex<i64>) -> bool {
    &&& fits(x.real * y.real)
    &&& fits(x.imaginary * y.imaginary)
    &&& fits(x.imaginary * y.real)
    &&& fits(x.real * y.imaginary)
    &&& fits(product_parts(x, y).0)
    &&& fits(product_parts(x, y).1)
}

/// The squared modulus `re² + im²`.
pub open spec fn norm_sq(x: Complex<i64>) -> int {
    x.real * x.real + x.imaginary * x.imaginary
}

/// `x / y` is defined: `y` is not zero, and every value that multiplying
/// `x` by the conjugate of `y` and dividing by `|y|²` computes fits.
pub open spec fn quotient_defined(x: Complex<i64>, y: Complex<i64>) -> bool {
    &&& y.imaginary != i64::MIN
    &&& fits(y.real * y.real)
    &&& fits(y.imaginary * y.imaginary)
    &&& fits(norm_sq(y))
    &&& norm_sq(y) != 0
    &&& product_fits(x, Complex { real: y.real, imaginary: (-y.imaginary) as i64 })
}

impl Complex<i64> {
    /// The complex conjugate: the imaginary part negated.
    pub fn conj(&self) -> (c: Self)
        requires
            self.imaginary != i64::MIN,
        ensures
            c.real == self.real,
            c.imaginary == -self.imaginary,
    {
        Complex { real: self.real, imaginary: -self.imaginary }
    }
}

impl Complex<i64> {
    /// Adds `rhs` in place.
    pub fn add_assign(&mut self, rhs: Self)
        requires
            fits(old(self).real + rhs.real),
            fits(old(self).imaginary + rhs.imaginary),
        ensures
            final(self).real == old(self).real + rhs.real,
            final(self).imaginary == old(self).imaginary + rhs.imaginary,
    {
        *self = *self + rhs;
    }

    /// Subtracts `rhs` in place.
    pub fn sub_assign(&mut self, rhs: Self)
        requires
            fits(old(self).real - rhs.real),
            fits(old(self).imaginary - rhs.imaginary),
        ensures
            final(self).real == old(self).real - rhs.real,
            final(self).imaginary == old(self).imaginary - rhs.imaginary,
    {
        *self = *self - rhs;
    }

    /// Multiplies by `rhs` in place.
    pub fn mul_assign(&mut self, rhs: Self)
        requires
            product_fits(*old(self), rhs),
        ensures
            final(self).real == product_parts(*old(self), rhs).0,
            final(self).imaginary == product_parts(*old(self), rhs).1,
    {
        *self = *self * rhs;
    }

    /// Divides by `rhs` in place: the product with the conjugate of `rhs`,
    /// each part divided by `|rhs|²` and rounded toward zero.
    pub fn div_assign(&mut self, rhs: Self)
        requires
            quotient_defined(*old(self), rhs),
        ensures
            final(self).real == trunc_div(
                product_parts(*old(self), conj_value(rhs)).0,
                norm_sq(rhs),
            ) as i64,
            final(self).imaginary == trunc_div(
                product_parts(*old(self), conj_value(rhs)).1,
                norm_sq(rhs),
            ) as i64,
    {
        *self = *self / rhs;
    }
}

impl vstd::std_specs::ops::AddSpecImpl for Complex<i64> {
    open spec fn obeys_add_spec() -> bool {
        true
    }

    open spec fn add_req(self, rhs: Self) -> bool {
        fits(self.real + rhs.real) && fits(self.imaginary + rhs.imaginary)
    }

    open spec fn add_spec(self, rhs: Self) -> Self {
        Complex {
            real: (self.real + rhs.real) as i64,
            imaginary: (self.imaginary + rhs.imaginary) as i64,
        }
    }
}

impl std::ops::Add for Complex<i64> {
    type Output = Self;

    fn add(self, rhs: Self) -> (r: Self) {
        Complex { real: self.real + rhs.real, imaginary: self.imaginary + rhs.imaginary }
    }
}

impl vstd::std_specs::ops::SubSpecImpl for Complex<i64> {
    open spec fn obeys_sub_spec() -> bool {
        true
    }

    open spec fn sub_req(self, rhs: Self) -> bool {
        fits(self.real - rhs.real) && fits(self.imaginary - rhs.imaginary)
    }

    open spec fn sub_spec(self, rhs: Self) -> Self {
        Complex {
            real: (self.real - rhs.real) as i64,
            imaginary: (self.imaginary - rhs.imaginary) as i64,
        }
    }
}

impl std::ops::Sub for Complex<i64> {
    type Output = Self;

    fn sub(self, rhs: Self) -> (r: Self) {
        Complex { real: self.real - rhs.real, imaginary: self.imaginary - rhs.imaginary }
    }
}

impl vstd::std_specs::ops::NegSpecImpl for Complex<i64> {
    open spec fn obeys_neg_spec() -> bool {
        true
    }

    open spec fn neg_req(self) -> bool {
        self.real != i64::MIN && self.imaginary != i64::MIN
    }

    open spec fn neg_spec(self) -> Self {
        Complex { real: (-self.real) as i64, imaginary: (-self.imaginary) as i64 }
    }
}

impl std::ops::Neg for Complex<i64> {
    type Output = Self;

    fn neg(self) -> (r: Self) {
        Complex { real: -self.real, imaginary: -self.imaginary }
    }
}

impl vstd::std_specs::ops::MulSpecImpl for Complex<i64> {
    open spec fn obeys_mul_spec() -> bool {
        true
    }

    open spec fn mul_req(self, rhs: Self) -> bool {
        product_fits(self, rhs)
    }

    open spec fn mul_spec(self, rhs: Self) -> Self {
        Complex {
            real: product_parts(self, rhs).0 as i64,
            imaginary: product_parts(self, rhs).1 as i64,
        }
    }
}

impl std::ops::Mul for Complex<i64> {
    type Output = Self;

    fn mul(self, rhs: Self) -> (r: Self) {
        let a = self.real * rhs.real;
        let b = self.imaginary * rhs.imaginary;
        let c = self.imaginary * rhs.real;
        let d = self.real * rhs.imaginary;
        Complex { real: a - b, imaginary: c + d }
    }
}

impl vstd::std_specs::ops::DivSpecImpl for Complex<i64> {
    open spec fn obeys_div_spec() -> bool {
        true
    }

    open spec fn div_req(self, rhs: Self) -> bool {
        quotient_defined(self, rhs)
    }

    /// The product with the conjugate of `rhs`, each part divided by
    /// `|rhs|²` and rounded toward zero.
    open spec fn div_spec(self, rhs: Self) -> Self {
        let top = product_parts(self, Complex { real: rhs.real, imaginary: (-rhs.imaginary) as i64 });
        Complex {
            real: trunc_div(top.0, norm_sq(rhs)) as i64,
            imaginary: trunc_div(top.1, norm_sq(rhs)) as i64,
        }
    }
}

impl std::ops::Div for Complex<i64> {
    type Output = Self;

    fn div(self, rhs: Self) -> (r: Self) {
        let top = self * rhs.conj();
        let bottom = rhs.real * rhs.real + rhs.imaginary * rhs.imaginary;
        proof {
            assert(bottom > 0) by (nonlinear_arith)
                requires
                    bottom == rhs.real * rhs.real + rhs.imaginary * rhs.imaginary,
                    bottom != 0,
            ;
        }
        Complex {
            real: crate::matrix::div_toward_zero(top.real, bottom),
            imaginary: crate::matrix::div_toward_zero(top.imaginary, bottom),
        }
    }
}

/// The square root of `x`, rounded down.
pub open spec fn floor_sqrt(x: int) -> i64 {
    choose|r: i64| is_nth_root(x, 2, r as int)
}

proof fn lemma_sqrt_unique(x: int, a: int, b: int)
    requires
        x >= 0,
        is_nth_root(x, 2, a),
        is_nth_root(x, 2, b),
    ensures
        a == b,
{
    assert(int_pow(a, 2) == a * a) by {
        assert(int_pow(a, 1) == a * int_pow(a, 0));
    }
    assert(int_pow(b, 2) == b * b) by {
        assert(int_pow(b, 1) == b * int_pow(b, 0));
    }
    assert(int_pow(a + 1, 2) == (a + 1) * (a + 1)) by {
        assert(int_pow(a + 1, 1) == (a + 1) * int_pow(a + 1, 0));
    }
    assert(int_pow(b + 1, 2) == (b + 1) * (b + 1)) by {
        assert(int_pow(b + 1, 1) == (b + 1) * int_pow(b + 1, 0));
    }
    if a < b {
        assert((a + 1) * (a + 1) <= b * b) by (nonlinear_arith)
            requires
                0 <= a,
                a + 1 <= b,
        ;
    }
    if b < a {
        assert((b + 1) * (b + 1) <= a * a) by (nonlinear_arith)
            requires
                0 <= b,
                b + 1 <= a,
        ;
    }
}

impl Abs for Complex<i64> {
    /// `re² + im²` fits in an `i64`.
    open spec fn abs_defined(&self) -> bool {
        fits(self.real * self.real) && fits(self.imaginary * self.imaginary) && fits(norm_sq(*self))
    }

    /// The modulus `√(re² + im²)`, rounded down, as a real number.
    open spec fn spec_abs(&self) -> Self {
        Complex { real: floor_sqrt(norm_sq(*self)), imaginary: 0 }
    }

    fn absolute(&self) -> (r: Self) {
        let s = self.real * self.real + self.imaginary * self.imaginary;
        proof {
            assert(s >= 0) by (nonlinear_arith)
                requires
                    s == self.real * self.real + self.imaginary * self.imaginary,
            ;
        }
        let root = s.root_n(2);
        proof {
            let c = floor_sqrt(s as int);
            assert(is_nth_root(s as int, 2, c as int));
            lemma_sqrt_unique(s as int, root as int, c as int);
        }
        Complex { real: root, imaginary: 0 }
    }
}

/// `x` as a complex number with imaginary part zero.
pub open spec fn promoted(x: i64) -> Complex<i64> {
    Complex { real: x, imaginary: 0 }
}

/// The complex conjugate of `c`.
pub open spec fn conj_value(c: Complex<i64>) -> Complex<i64> {
    Complex { real: c.real, imaginary: (-c.imaginary) as i64 }
}

/// The absolute value of each part of `c`.
pub open spec fn parts_abs<L: Abs>(c: Complex<L>) -> Complex<L> {
    Complex { real: c.real.spec_abs(), imaginary: c.imaginary.spec_abs() }
}

/// Both parts of `c` have an absolute value.
pub open spec fn parts_abs_defined<L: Abs>(c: Complex<L>) -> bool {
    c.real.abs_defined() && c.imaginary.abs_defined()
}

/// `f` applied to each entry of the `rows`×`cols` grid `m`.
pub open spec fn grid_map<A, B>(m: Seq<Seq<A>>, rows: int, cols: int, f: spec_fn(A) -> B) -> Seq<
    Seq<B>,
> {
    Seq::new(rows as nat, |i: int| Seq::new(cols as nat, |j: int| f(m[i][j])))
}

impl<const T: usize, const N: usize> Matrix<T, N, i64> {
    /// The conjugate of the matrix taken as complex: each entry becomes a
    /// complex number with imaginary part zero.
    pub fn conj(&self) -> (r: Matrix<T, N, Complex<i64>>)
        ensures
            r@ == grid_map(self@, T as int, N as int, |x: i64| promoted(x)),
    {
        let mut out: Matrix<T, N, Complex<i64>> = Matrix::empty();
        let mut i: usize = 0;
        while i < T
            invariant
                0 <= i <= T,
                forall|x: int, y: int|
                    0 <= x < i && 0 <= y < N ==> #[trigger] out@[x][y] == promoted(self@[x][y]),
            decreases T - i,
        {
            let mut j: usize = 0;
            while j < N
                invariant
                    0 <= j <= N,
                    i < T,
                    forall|x: int, y: int|
                        0 <= x < T && 0 <= y < N && (x < i || (x == i && y < j))
                            ==> #[trigger] out@[x][y] == promoted(self@[x][y]),
                decreases N - j,
            {
                let v = self.get(i, j);
                let w = Complex::from_real(v).conj();
                out.set(i, j, w);
                j += 1;
            }
            i += 1;
        }
        proof {
            out.lemma_shape();
            lemma_grid_ext(
                out@,
                grid_map(self@, T as int, N as int, |x: i64| promoted(x)),
                T as int,
                N as int,
            );
        }
        out
    }
}

impl<const T: usize, const N: usize> Matrix<T, N, Complex<i64>> {
    /// The entry-wise complex conjugate.
    pub fn conj(&self) -> (r: Self)
        requires
            forall|i: int, j: int| 0 <= i < T && 0 <= j < N
                ==> #[trigger] self@[i][j].imaginary != i64::MIN,
        ensures
            r@ == grid_map(self@, T as int, N as int, |c: Complex<i64>| conj_value(c)),
    {
        let mut out: Self = Matrix::empty();
        let mut i: usize = 0;
        while i < T
            invariant
                0 <= i <= T,
                forall|i: int, j: int| 0 <= i < T && 0 <= j < N
                    ==> #[trigger] self@[i][j].imaginary != i64::MIN,
                forall|x: int, y: int|
                    0 <= x < i && 0 <= y < N ==> #[trigger] out@[x][y] == conj_value(self@[x][y]),
            decreases T - i,
        {
            let mut j: usize = 0;
            while j < N
                invariant
                    0 <= j <= N,
                    i < T,
                    forall|i: int, j: int| 0 <= i < T && 0 <= j < N
                        ==> #[trigger] self@[i][j].imaginary != i64::MIN,
                    forall|x: int, y: int|
                        0 <= x < T && 0 <= y < N && (x < i || (x == i && y < j))
                            ==> #[trigger] out@[x][y] == conj_value(self@[x][y]),
                decreases N - j,
            {
                let v = self.get(i, j);
                let w = v.conj();
                out.set(i, j, w);
                j += 1;
            }
            i += 1;
        }
        proof {
            out.lemma_shape();
            lemma_grid_ext(
                out@,
                grid_map(self@, T as int, N as int, |c: Complex<i64>| conj_value(c)),
                T as int,
                N as int,
            );
        }
        out
    }
}

impl<const T: usize, const N: usize, L: Abs + Element> Matrix<T, N, Complex<L>> {
    /// The absolute value of each part of each entry (not the modulus).
    pub fn c_abs(&self) -> (r: Self)
        requires
            forall|i: int, j: int| 0 <= i < T && 0 <= j < N
                ==> parts_abs_defined(#[trigger] self@[i][j]),
        ensures
            r@ == grid_map(self@, T as int, N as int, |c: Complex<L>| parts_abs(c)),
    {
        let mut out: Self = Matrix::empty();
        let mut i: usize = 0;
        while i < T
            invariant
                0 <= i <= T,
                forall|i: int, j: int| 0 <= i < T && 0 <= j < N
                    ==> parts_abs_defined(#[trigger] self@[i][j]),
                forall|x: int, y: int|
                    0 <= x < i && 0 <= y < N ==> #[trigger] out@[x][y] == parts_abs(self@[x][y]),
            decreases T - i,
        {
            let mut j: usize = 0;
            while j < N
                invariant
                    0 <= j <= N,
                    i < T,
                    forall|i: int, j: int| 0 <= i < T && 0 <= j < N
                        ==> parts_abs_defined(#[trigger] self@[i][j]),
                    forall|x: int, y: int|
                        0 <= x < T && 0 <= y < N && (x < i || (x == i && y < j))
                            ==> #[trigger] out@[x][y] == parts_abs(self@[x][y]),
                decreases N - j,
            {
                let v = self.get(i, j);
                let w = v.element_abs();
                out.set(i, j, w);
                j += 1;
            }
            i += 1;
        }
        proof {
            out.lemma_shape();
            lemma_grid_ext(
                out@,
                grid_map(self@, T as int, N as int, |c: Complex<L>| parts_abs(c)),
                T as int,
                N as int,
            );
        }
        out
    }
}

impl<const T: usize, const N: usize, L: Epsilon + Element> Matrix<T, N, L> {
    /// Each entry passed through `epsilon`: values too small to tell from
    /// rounding noise become zero.
    pub fn epsilon_filter(&self) -> (r: Self)
        ensures
            r@ == grid_map(self@, T as int, N as int, |x: L| x.spec_epsilon()),
    {
        let mut out: Self = Matrix::empty();
        let mut i: usize = 0;
        while i < T
            invariant
                0 <= i <= T,
                forall|x: int, y: int|
                    0 <= x < i && 0 <= y < N ==> #[trigger] out@[x][y] == self@[x][y].spec_epsilon(),
            decreases T - i,
        {
            let mut j: usize = 0;
            while j < N
                invariant
                    0 <= j <= N,
                    i < T,
                    forall|x: int, y: int|
                        0 <= x < T && 0 <= y < N && (x < i || (x == i && y < j))
                            ==> #[trigger] out@[x][y] == self@[x][y].spec_epsilon(),
                decreases N - j,
            {
                let v = self.get(i, j);
                let w = v.epsilon();
                out.set(i, j, w);
                j += 1;
            }
            i += 1;
        }
        proof {
            out.lemma_shape();
            lemma_grid_ext(
                out@,
                grid_map(self@, T as int, N as int, |x: L| x.spec_epsilon()),
                T as int,
                N as int,
            );
        }
        out
    }
}

} // verus!
