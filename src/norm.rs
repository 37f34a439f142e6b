//! Vector norms, dot and cross products, and rows picked by norm.
use vstd::prelude::*;
use crate::complex::{product_fits, product_parts, Complex};
use crate::matrix::{Matrix, Vector};
use crate::traits::{int_pow, is_nth_root, Abs, Pows};

verus! {

/// How to reduce a vector's components to one value (a norm of the
/// caller's own is passed to `Matrix::norm_by` as a closure).
#[derive(Clone, Copy, Debug, PartialEq, Eq)]
#[allow(non_camel_case_types)]
pub enum Norm {
    /// The square root of the sum of the squares.
    Euclidean,
    /// The sum of the absolute values.
    Manhattan,
    /// The p-th root of the sum of the p-th powers of the absolute values.
    p_norm(usize),
}

pub open spec fn abs_int(x: int) -> int {
    if x < 0 {
        -x
    } else {
        x
    }
}

/// The term that `norm` adds up for the component `x`.
pub open spec fn norm_term(norm: Norm, x: i64) -> int {
    match norm {
        Norm::Euclidean => int_pow(x as int, 2),
        Norm::Manhattan => abs_int(x as int),
        Norm::p_norm(p) => int_pow(abs_int(x as int), p as nat),
    }
}

/// The sum of the first `k` terms of `t` under `norm`.
pub open spec fn norm_sum(norm: Norm, t: Seq<i64>, k: int) -> int
    decreases k,
{
    if k <= 0 {
        0
    } else {
        norm_sum(norm, t, k - 1) + norm_term(norm, t[k - 1])
    }
}

/// The degree of the root that `norm` takes of its sum.
pub open spec fn norm_degree(norm: Norm) -> nat {
    match norm {
        Norm::Euclidean => 2,
        Norm::p_norm(p) => p as nat,
        _ => 1,
    }
}

/// `r` is the value of `norm` on the components `t`.
pub open spec fn is_norm(norm: Norm, t: Seq<i64>, r: i64) -> bool {
    is_nth_root(norm_sum(norm, t, t.len() as int), norm_degree(norm), r as int)
}

/// `norm` can be evaluated on `t` within `i64`: every power and every
/// partial sum fits, and a p-norm has degree `1..=u32::MAX`.
pub open spec fn norm_defined(norm: Norm, t: Seq<i64>) -> bool {
    &&& (norm matches Norm::p_norm(p) ==> 1 <= p <= u32::MAX)
    &&& forall|i: int| 0 <= i < t.len() ==> #[trigger] t[i] != i64::MIN
    &&& forall|i: int, k: nat|
        0 <= i < t.len() && k <= norm_degree(norm) ==> i64::MIN <= #[trigger] int_pow(
            abs_int(t[i] as int),
            k,
        ) <= i64::MAX
    &&& forall|k: int| 0 <= k <= t.len() ==> i64::MIN <= #[trigger] norm_sum(norm, t, k) <= i64::MAX
}

impl Norm {
    /// The value of this norm on the components `t`.
    pub fn call(self, t: Vec<i64>) -> (r: i64)
        requires
            norm_defined(self, t@),
        ensures
            is_norm(self, t@, r),
    {
        {
            {
                let mut acc: i64 = 0;
                let mut i: usize = 0;
                while i < t.len()
                    invariant
                        0 <= i <= t@.len(),
                        norm_defined(self, t@),
                        acc == norm_sum(self, t@, i as int),
                    decreases t@.len() - i,
                {
                    let v = t[i];
                    proof {
                        assert(i64::MIN <= norm_sum(self, t@, i + 1) <= i64::MAX);
                    }
                    let term = match self {
                        Norm::Euclidean => {
                            proof {
                                lemma_pow_abs(v as int, 2);
                                assert(i64::MIN <= int_pow(abs_int(v as int), 1) <= i64::MAX);
                                assert(i64::MIN <= int_pow(abs_int(v as int), 0) <= i64::MAX);
                                lemma_pow_abs(v as int, 1);
                                lemma_pow_abs(v as int, 0);
                                assert(v.power_defined(2));
                            }
                            v.power(2)
                        },
                        Norm::Manhattan => v.absolute(),
                        Norm::p_norm(p) => {
                            let a = v.absolute();
                            proof {
                                assert(a.power_defined(p as i64));
                            }
                            a.power(p as i64)
                        },
                    };
                    acc = acc + term;
                    i += 1;
                }
                let degree: i64 = match self {
                    Norm::p_norm(p) => p as i64,
                    Norm::Euclidean => 2,
                    _ => 1,
                };
                proof {
                    lemma_sum_nonneg(self, t@, t@.len() as int);
                }
                match self {
                    Norm::Manhattan => {
                        proof {
                            lemma_first_root(acc as int);
                        }
                        acc
                    },
                    _ => acc.root_n(degree),
                }
            }
        }
    }
}

proof fn lemma_pow_abs(x: int, k: nat)
    requires
        k <= 2,
    ensures
        int_pow(x, k) == if k == 1 { x } else { int_pow(abs_int(x), k) },
{
    assert(int_pow(x, 1) == x * int_pow(x, 0));
    assert(int_pow(abs_int(x), 1) == abs_int(x) * int_pow(abs_int(x), 0));
    if k == 2 {
        assert(x * x == abs_int(x) * abs_int(x)) by (nonlinear_arith);
    }
}

proof fn lemma_first_root(x: int)
    requires
        x >= 0,
    ensures
        is_nth_root(x, 1, x),
{
    assert(int_pow(x, 1) == x * int_pow(x, 0));
    assert(int_pow(x + 1, 1) == (x + 1) * int_pow(x + 1, 0));
}

proof fn lemma_term_nonneg(norm: Norm, x: i64)
    ensures
        norm_term(norm, x) >= 0,
{
    match norm {
        Norm::Euclidean => {
            assert(int_pow(x as int, 1) == x * int_pow(x as int, 0));
            assert(int_pow(x as int, 2) == x * int_pow(x as int, 1));
            assert(x * x >= 0) by (nonlinear_arith);
        },
        Norm::p_norm(p) => {
            lemma_pow_nonneg(abs_int(x as int), p as nat);
        },
        _ => {},
    }
}

proof fn lemma_pow_nonneg(b: int, e: nat)
    requires
        b >= 0,
    ensures
        int_pow(b, e) >= 0,
    decreases e,
{
    if e > 0 {
        lemma_pow_nonneg(b, (e - 1) as nat);
        let x = int_pow(b, (e - 1) as nat);
        assert(b * x >= 0) by (nonlinear_arith)
            requires
                b >= 0,
                x >= 0,
        ;
    }
}

proof fn lemma_sum_nonneg(norm: Norm, t: Seq<i64>, k: int)
    ensures
        norm_sum(norm, t, k) >= 0,
    decreases k,
{
    if k > 0 {
        lemma_sum_nonneg(norm, t, k - 1);
        lemma_term_nonneg(norm, t[k - 1]);
    }
}

proof fn lemma_pow_monotone(a: int, b: int, e: nat)
    requires
        0 <= a <= b,
    ensures
        int_pow(a, e) <= int_pow(b, e),
    decreases e,
{
    if e > 0 {
        lemma_pow_monotone(a, b, (e - 1) as nat);
        lemma_pow_nonneg(a, (e - 1) as nat);
        let x = int_pow(a, (e - 1) as nat);
        let y = int_pow(b, (e - 1) as nat);
        assert(a * x <= b * y) by (nonlinear_arith)
            requires
                0 <= a <= b,
                0 <= x <= y,
        ;
    }
}

/// A non-negative number has one `n`-th root rounded down.
proof fn lemma_root_unique(x: int, n: nat, a: int, b: int)
    requires
        x >= 0,
        is_nth_root(x, n, a),
        is_nth_root(x, n, b),
    ensures
        a == b,
{
    if a < b {
        lemma_pow_monotone(a + 1, b, n);
    } else if b < a {
        lemma_pow_monotone(b + 1, a, n);
    }
}

/// The value of `norm` on the components `t`.
pub open spec fn norm_of(norm: Norm, t: Seq<i64>) -> i64 {
    choose|r: i64| is_norm(norm, t, r)
}

impl Norm {
    /// `call`, stated as the value `norm_of`.
    fn value(self, t: Vec<i64>) -> (r: i64)
        requires
            norm_defined(self, t@),
        ensures
            r == norm_of(self, t@),
    {
        let ghost s = t@;
        let r = self.call(t);
        proof {
            lemma_sum_nonneg(self, s, s.len() as int);
            let c = norm_of(self, s);
            assert(is_norm(self, s, c));
            lemma_root_unique(norm_sum(self, s, s.len() as int), norm_degree(self), r as int, c as int);
        }
        r
    }
}

fn row_to_vec<const N: usize>(row: &[i64; N]) -> (v: Vec<i64>)
    ensures
        v@ == row@,
{
    let mut v: Vec<i64> = Vec::new();
    let mut j: usize = 0;
    while j < N
        invariant
            0 <= j <= N,
            v@ == row@.subrange(0, j as int),
        decreases N - j,
    {
        v.push(row[j]);
        j += 1;
        assert(v@ =~= row@.subrange(0, j as int));
    }
    assert(v@ =~= row@);
    v
}

/// `a[0] · b[0] + ... + a[k - 1] · b[k - 1]`.
pub open spec fn dot_of(a: Seq<i64>, b: Seq<i64>, k: int) -> int
    decreases k,
{
    if k <= 0 {
        0
    } else {
        dot_of(a, b, k - 1) + a[k - 1] * b[k - 1]
    }
}

/// The cross product of two 3-vectors.
pub open spec fn cross_of(a: Seq<i64>, b: Seq<i64>) -> Seq<int> {
    seq![a[1] * b[2] - a[2] * b[1], a[2] * b[0] - a[0] * b[2], a[0] * b[1] - a[1] * b[0]]
}

impl<const T: usize> Vector<T, i64> {
    /// The value of `norm` on the components.
    pub fn norm(&self, norm: Norm) -> (r: i64)
        requires
            norm_defined(norm, self@[0]),
        ensures
            r == norm_of(norm, self@[0]),
    {
        norm.value(row_to_vec(&self.0[0]))
    }

    /// The Euclidean norm, rounded down.
    pub fn magnitude(&self) -> (r: i64)
        requires
            norm_defined(Norm::Euclidean, self@[0]),
        ensures
            r == norm_of(Norm::Euclidean, self@[0]),
    {
        self.norm(Norm::Euclidean)
    }

    /// A norm of the caller's own, applied to the components.
    pub fn norm_by<F: Fn(Vec<i64>) -> i64>(&self, f: F) -> (r: i64)
        requires
            forall|v: Vec<i64>| v@ == self@[0] ==> f.requires((v,)),
        ensures
            exists|v: Vec<i64>| v@ == self@[0] && f.ensures((v,), r),
    {
        let v = row_to_vec(&self.0[0]);
        f(v)
    }

    /// The dot product `Σ self[i] · rhs[i]`.
    pub fn dot(&self, rhs: Vector<T, i64>) -> (r: i64)
        requires
            forall|k: int|
                0 <= k < T ==> i64::MIN <= #[trigger] (self@[0][k] * rhs@[0][k]) <= i64::MAX
                    && i64::MIN <= dot_of(self@[0], rhs@[0], k + 1) <= i64::MAX,
        ensures
            r == dot_of(self@[0], rhs@[0], T as int),
    {
        let mut acc: i64 = 0;
        let mut k: usize = 0;
        while k < T
            invariant
                0 <= k <= T,
                forall|k: int|
                    0 <= k < T ==> i64::MIN <= #[trigger] (self@[0][k] * rhs@[0][k]) <= i64::MAX
                        && i64::MIN <= dot_of(self@[0], rhs@[0], k + 1) <= i64::MAX,
                acc == dot_of(self@[0], rhs@[0], k as int),
            decreases T - k,
        {
            assert(i64::MIN <= (self@[0][k as int] * rhs@[0][k as int]) <= i64::MAX);
            let p = self.0[0][k] * rhs.0[0][k];
            acc = acc + p;
            k += 1;
        }
        acc
    }
}

impl Vector<3, i64> {
    /// The cross product `self × rhs`.
    pub fn cross(&self, rhs: Vector<3, i64>) -> (r: Vector<3, i64>)
        requires
            forall|i: int, j: int|
                0 <= i < 3 && 0 <= j < 3 ==> i64::MIN <= #[trigger] (self@[0][i] * rhs@[0][j])
                    <= i64::MAX,
            forall|i: int| 0 <= i < 3
                ==> i64::MIN <= #[trigger] cross_of(self@[0], rhs@[0])[i] <= i64::MAX,
        ensures
            r@.len() == 1,
            forall|i: int| 0 <= i < 3 ==> r@[0][i] == #[trigger] cross_of(self@[0], rhs@[0])[i],
    {
        let a = self.0[0];
        let b = rhs.0[0];
        assert(i64::MIN <= (self@[0][1] * rhs@[0][2]) <= i64::MAX);
        assert(i64::MIN <= (self@[0][2] * rhs@[0][1]) <= i64::MAX);
        assert(i64::MIN <= (self@[0][2] * rhs@[0][0]) <= i64::MAX);
        assert(i64::MIN <= (self@[0][0] * rhs@[0][2]) <= i64::MAX);
        assert(i64::MIN <= (self@[0][0] * rhs@[0][1]) <= i64::MAX);
        assert(i64::MIN <= (self@[0][1] * rhs@[0][0]) <= i64::MAX);
        assert(i64::MIN <= cross_of(self@[0], rhs@[0])[0] <= i64::MAX);
        assert(i64::MIN <= cross_of(self@[0], rhs@[0])[1] <= i64::MAX);
        assert(i64::MIN <= cross_of(self@[0], rhs@[0])[2] <= i64::MAX);
        Matrix([[a[1] * b[2] - a[2] * b[1], a[2] * b[0] - a[0] * b[2], a[0] * b[1] - a[1] * b[0]]])
    }
}

/// The conjugate of `c`, as a value.
pub open spec fn conj_of(c: Complex<i64>) -> Complex<i64> {
    Complex { real: c.real, imaginary: (-c.imaginary) as i64 }
}

/// `Σ_{i < k} a[i] · conj(b[i])`, as real and imaginary parts.
pub open spec fn cdot_upto(a: Seq<Complex<i64>>, b: Seq<Complex<i64>>, k: int) -> (int, int)
    decreases k,
{
    if k <= 0 {
        (0, 0)
    } else {
        let prev = cdot_upto(a, b, k - 1);
        let t = product_parts(a[k - 1], conj_of(b[k - 1]));
        (prev.0 + t.0, prev.1 + t.1)
    }
}

/// Every conjugate, product and partial sum of `Σ a[i] · conj(b[i])` fits.
pub open spec fn cdot_fits(a: Seq<Complex<i64>>, b: Seq<Complex<i64>>, n: int) -> bool {
    forall|k: int|
        0 <= k < n ==> #[trigger] b[k].imaginary != i64::MIN && product_fits(a[k], conj_of(b[k]))
            && i64::MIN <= cdot_upto(a, b, k + 1).0 <= i64::MAX && i64::MIN <= cdot_upto(
            a,
            b,
            k + 1,
        ).1 <= i64::MAX
}

impl<const T: usize> Vector<T, Complex<i64>> {
    /// The complex dot product `Σ self[i] · conj(rhs[i])`.
    pub fn cdot(&self, rhs: Self) -> (r: Complex<i64>)
        requires
            cdot_fits(self@[0], rhs@[0], T as int),
        ensures
            r.real == cdot_upto(self@[0], rhs@[0], T as int).0,
            r.imaginary == cdot_upto(self@[0], rhs@[0], T as int).1,
    {
        let mut acc = Complex::from_real(0i64);
        let mut k: usize = 0;
        while k < T
            invariant
                0 <= k <= T,
                cdot_fits(self@[0], rhs@[0], T as int),
                acc.real == cdot_upto(self@[0], rhs@[0], k as int).0,
                acc.imaginary == cdot_upto(self@[0], rhs@[0], k as int).1,
            decreases T - k,
        {
            assert(rhs@[0][k as int].imaginary != i64::MIN);
            let x = self.0[0][k];
            let y = rhs.0[0][k].conj();
            assert(y == conj_of(rhs@[0][k as int]));
            assert(product_fits(x, y));
            let t = x * y;
            acc = acc + t;
            k += 1;
        }
        acc
    }
}

/// Row `k` of `m` has the largest norm, and no earlier row has as large a one.
pub open spec fn is_first_max_row(m: Seq<Seq<i64>>, rows: int, norm: Norm, k: int) -> bool {
    &&& 0 <= k < rows
    &&& forall|i: int| 0 <= i < rows ==> norm_of(norm, #[trigger] m[i]) <= norm_of(norm, m[k])
    &&& forall|i: int| 0 <= i < k ==> norm_of(norm, #[trigger] m[i]) < norm_of(norm, m[k])
}

/// Row `k` of `m` has the smallest norm, and no earlier row has as small a one.
pub open spec fn is_first_min_row(m: Seq<Seq<i64>>, rows: int, norm: Norm, k: int) -> bool {
    &&& 0 <= k < rows
    &&& forall|i: int| 0 <= i < rows ==> norm_of(norm, m[k]) <= norm_of(norm, #[trigger] m[i])
    &&& forall|i: int| 0 <= i < k ==> norm_of(norm, m[k]) < norm_of(norm, #[trigger] m[i])
}

impl<const T: usize, const N: usize> Matrix<T, N, i64> {
    /// The first row with the largest norm.
    pub fn max_row(&self, norm: Norm) -> (r: Vector<N, i64>)
        requires
            T > 0,
            forall|i: int| 0 <= i < T ==> norm_defined(norm, #[trigger] self@[i]),
        ensures
            exists|k: int| is_first_max_row(self@, T as int, norm, k) && r@ == seq![self@[k]],
    {
        self.pick_row(norm, true)
    }

    /// The first row with the smallest norm.
    pub fn min_row(&self, norm: Norm) -> (r: Vector<N, i64>)
        requires
            T > 0,
            forall|i: int| 0 <= i < T ==> norm_defined(norm, #[trigger] self@[i]),
        ensures
            exists|k: int| is_first_min_row(self@, T as int, norm, k) && r@ == seq![self@[k]],
    {
        self.pick_row(norm, false)
    }

    /// The rows with the smallest and with the largest norm.
    pub fn min_max_row(&self, norm: Norm) -> (r: (Vector<N, i64>, Vector<N, i64>))
        requires
            T > 0,
            forall|i: int| 0 <= i < T ==> norm_defined(norm, #[trigger] self@[i]),
        ensures
            exists|k: int| is_first_min_row(self@, T as int, norm, k) && r.0@ == seq![self@[k]],
            exists|k: int| is_first_max_row(self@, T as int, norm, k) && r.1@ == seq![self@[k]],
    {
        (self.min_row(norm), self.max_row(norm))
    }

    fn pick_row(&self, norm: Norm, largest: bool) -> (r: Vector<N, i64>)
        requires
            T > 0,
            forall|i: int| 0 <= i < T ==> norm_defined(norm, #[trigger] self@[i]),
        ensures
            largest ==> exists|k: int|
                is_first_max_row(self@, T as int, norm, k) && r@ == seq![self@[k]],
            !largest ==> exists|k: int|
                is_first_min_row(self@, T as int, norm, k) && r@ == seq![self@[k]],
    {
        let ghost m = self@;
        assert(norm_defined(norm, m[0]));
        let mut best: usize = 0;
        let mut best_norm = norm.value(row_to_vec(&self.0[0]));
        let mut i: usize = 1;
        while i < T
            invariant
                1 <= i <= T,
                m == self@,
                forall|i: int| 0 <= i < T ==> norm_defined(norm, #[trigger] m[i]),
                0 <= best < i,
                best_norm == norm_of(norm, m[best as int]),
                largest ==> forall|x: int|
                    0 <= x < i ==> norm_of(norm, #[trigger] m[x]) <= best_norm,
                largest ==> forall|x: int|
                    0 <= x < best ==> norm_of(norm, #[trigger] m[x]) < best_norm,
                !largest ==> forall|x: int|
                    0 <= x < i ==> best_norm <= norm_of(norm, #[trigger] m[x]),
                !largest ==> forall|x: int|
                    0 <= x < best ==> best_norm < norm_of(norm, #[trigger] m[x]),
            decreases T - i,
        {
            assert(norm_defined(norm, m[i as int]));
            let c = norm.value(row_to_vec(&self.0[i]));
            if (largest && c > best_norm) || (!largest && c < best_norm) {
                best = i;
                best_norm = c;
            }
            i += 1;
        }
        let out: Vector<N, i64> = Matrix([self.0[best]]);
        assert(out@ =~= seq![m[best as int]]);
        out
    }
}

/// `f` may return `x` on the components `row`.
pub open spec fn returned_on<F: Fn(Vec<i64>) -> i64>(f: F, row: Seq<i64>, x: i64) -> bool {
    exists|v: Vec<i64>| v@ == row && #[trigger] f.ensures((v,), x)
}

/// `vals[i]` is a value that `f` returned on row `i` of `m`, for each of
/// the `rows` rows.
pub open spec fn values_of<F: Fn(Vec<i64>) -> i64>(
    f: F,
    m: Seq<Seq<i64>>,
    rows: int,
    vals: Seq<i64>,
) -> bool {
    &&& vals.len() == rows
    &&& forall|i: int| 0 <= i < rows ==> #[trigger] returned_on(f, m[i], vals[i])
}

/// `vals[k]` is the largest of `vals`, and no earlier entry is as large.
pub open spec fn first_max(vals: Seq<i64>, k: int) -> bool {
    &&& 0 <= k < vals.len()
    &&& forall|i: int| 0 <= i < vals.len() ==> #[trigger] vals[i] <= vals[k]
    &&& forall|i: int| 0 <= i < k ==> #[trigger] vals[i] < vals[k]
}

/// `vals[k]` is the smallest of `vals`, and no earlier entry is as small.
pub open spec fn first_min(vals: Seq<i64>, k: int) -> bool {
    &&& 0 <= k < vals.len()
    &&& forall|i: int| 0 <= i < vals.len() ==> vals[k] <= #[trigger] vals[i]
    &&& forall|i: int| 0 <= i < k ==> vals[k] < #[trigger] vals[i]
}

impl<const T: usize, const N: usize> Matrix<T, N, i64> {
    /// The first row on which the caller's norm `f` is largest.
    pub fn max_row_by<F: Fn(Vec<i64>) -> i64>(&self, f: F) -> (r: Vector<N, i64>)
        requires
            T > 0,
            forall|v: Vec<i64>| f.requires((v,)),
        ensures
            exists|vals: Seq<i64>, k: int|
                values_of(f, self@, T as int, vals) && first_max(vals, k) && r@ == seq![self@[k]],
    {
        self.pick_row_by(f, true)
    }

    /// The first row on which the caller's norm `f` is smallest.
    pub fn min_row_by<F: Fn(Vec<i64>) -> i64>(&self, f: F) -> (r: Vector<N, i64>)
        requires
            T > 0,
            forall|v: Vec<i64>| f.requires((v,)),
        ensures
            exists|vals: Seq<i64>, k: int|
                values_of(f, self@, T as int, vals) && first_min(vals, k) && r@ == seq![self@[k]],
    {
        self.pick_row_by(f, false)
    }

    fn pick_row_by<F: Fn(Vec<i64>) -> i64>(&self, f: F, largest: bool) -> (r: Vector<N, i64>)
        requires
            T > 0,
            forall|v: Vec<i64>| f.requires((v,)),
        ensures
            exists|vals: Seq<i64>, k: int|
                values_of(f, self@, T as int, vals) && (if largest {
                    first_max(vals, k)
                } else {
                    first_min(vals, k)
                }) && r@ == seq![self@[k]],
    {
        let ghost m = self@;
        let v0 = row_to_vec(&self.0[0]);
        let ghost w0 = v0;
        let mut best_norm = f(v0);
        let ghost mut vals: Seq<i64> = seq![best_norm];
        proof {
            assert(w0@ == m[0] && f.ensures((w0,), vals[0]));
            assert(returned_on(f, m[0], vals[0]));
        }
        let mut best: usize = 0;
        let mut i: usize = 1;
        while i < T
            invariant
                1 <= i <= T,
                m == self@,
                forall|v: Vec<i64>| f.requires((v,)),
                values_of(f, m, i as int, vals),
                0 <= best < i,
                best_norm == vals[best as int],
                largest ==> first_max(vals, best as int),
                !largest ==> first_min(vals, best as int),
            decreases T - i,
        {
            let v = row_to_vec(&self.0[i]);
            let ghost wv = v;
            let c = f(v);
            proof {
                let old_vals = vals;
                vals = vals.push(c);
                assert forall|x: int| 0 <= x < i + 1 implies #[trigger] returned_on(f, m[x], vals[x]) by {
                    if x == i {
                        assert(wv@ == m[x] && f.ensures((wv,), vals[x]));
                    } else {
                        assert(vals[x] == old_vals[x]);
                        assert(returned_on(f, m[x], old_vals[x]));
                    }
                }
            }
            if (largest && c > best_norm) || (!largest && c < best_norm) {
                best = i;
                best_norm = c;
            }
            i += 1;
        }
        let out: Vector<N, i64> = Matrix([self.0[best]]);
        assert(out@ =~= seq![m[best as int]]);
        out
    }
}

} // verus!
