//! Arithmetic on matrices of `i64`: `+`, `-`, unary `-` and `*`.
use vstd::prelude::*;
use crate::matrix::{
    div_toward_zero, dot_upto, has_shape, ints, lemma_grid_ext, mat_mul, trunc_div, Matrix,
};
use crate::traits::Abs;

verus! {

/// Every entry-wise sum of `a` and `b` fits in an `i64`.
pub open spec fn sums_fit(a: Seq<Seq<i64>>, b: Seq<Seq<i64>>, rows: int, cols: int) -> bool {
    forall|i: int, j: int|
        0 <= i < rows && 0 <= j < cols ==> i64::MIN <= #[trigger] a[i][j] + b[i][j] <= i64::MAX
}

/// The entry-wise sum of two grids.
pub open spec fn grid_add(a: Seq<Seq<i64>>, b: Seq<Seq<i64>>, rows: int, cols: int) -> Seq<Seq<i64>> {
    Seq::new(rows as nat, |i: int| Seq::new(cols as nat, |j: int| (a[i][j] + b[i][j]) as i64))
}

/// Each entry of `m` negated.
pub open spec fn grid_neg(m: Seq<Seq<i64>>, rows: int, cols: int) -> Seq<Seq<i64>> {
    Seq::new(rows as nat, |i: int| Seq::new(cols as nat, |j: int| (-m[i][j]) as i64))
}

/// Each entry of `m` times `k`.
pub open spec fn grid_scale(m: Seq<Seq<i64>>, k: i64, rows: int, cols: int) -> Seq<Seq<i64>> {
    Seq::new(rows as nat, |i: int| Seq::new(cols as nat, |j: int| (m[i][j] * k) as i64))
}

/// The absolute value of each entry of `m`.
pub open spec fn grid_abs(m: Seq<Seq<i64>>, rows: int, cols: int) -> Seq<Seq<i64>> {
    Seq::new(
        rows as nat,
        |i: int| Seq::new(cols as nat, |j: int| if m[i][j] < 0 { (-m[i][j]) as i64 } else { m[i][j] }),
    )
}

/// The entry-wise difference of two grids.
pub open spec fn grid_sub(a: Seq<Seq<i64>>, b: Seq<Seq<i64>>, rows: int, cols: int) -> Seq<Seq<i64>> {
    Seq::new(rows as nat, |i: int| Seq::new(cols as nat, |j: int| (a[i][j] - b[i][j]) as i64))
}

/// The entry-wise (Hadamard) product of two grids.
pub open spec fn grid_elem_mul(a: Seq<Seq<i64>>, b: Seq<Seq<i64>>, rows: int, cols: int) -> Seq<
    Seq<i64>,
> {
    Seq::new(rows as nat, |i: int| Seq::new(cols as nat, |j: int| (a[i][j] * b[i][j]) as i64))
}

/// The entry-wise quotient of two grids, rounded toward zero.
pub open spec fn grid_elem_div(a: Seq<Seq<i64>>, b: Seq<Seq<i64>>, rows: int, cols: int) -> Seq<
    Seq<i64>,
> {
    Seq::new(
        rows as nat,
        |i: int| Seq::new(cols as nat, |j: int| trunc_div(a[i][j] as int, b[i][j] as int) as i64),
    )
}

/// No entry of `m` is `i64::MIN`, so each can be negated.
pub open spec fn negatable(m: Seq<Seq<i64>>, rows: int, cols: int) -> bool {
    forall|i: int, j: int| 0 <= i < rows && 0 <= j < cols ==> #[trigger] m[i][j] != i64::MIN
}

/// Each entry of `m` times `k` fits in an `i64`.
pub open spec fn scale_fits(m: Seq<Seq<i64>>, k: i64, rows: int, cols: int) -> bool {
    forall|i: int, j: int|
        0 <= i < rows && 0 <= j < cols ==> i64::MIN <= #[trigger] m[i][j] * k <= i64::MAX
}

/// Each entry-wise difference fits in an `i64`.
pub open spec fn diffs_fit(a: Seq<Seq<i64>>, b: Seq<Seq<i64>>, rows: int, cols: int) -> bool {
    forall|i: int, j: int|
        0 <= i < rows && 0 <= j < cols ==> i64::MIN <= #[trigger] a[i][j] - b[i][j] <= i64::MAX
}

/// Each entry-wise product fits in an `i64`.
pub open spec fn products_fit(a: Seq<Seq<i64>>, b: Seq<Seq<i64>>, rows: int, cols: int) -> bool {
    forall|i: int, j: int|
        0 <= i < rows && 0 <= j < cols ==> i64::MIN <= #[trigger] a[i][j] * b[i][j] <= i64::MAX
}

/// Each entry-wise quotient is defined: no zero divisor, and no
/// `i64::MIN / -1`.
pub open spec fn quotients_defined(a: Seq<Seq<i64>>, b: Seq<Seq<i64>>, rows: int, cols: int) -> bool {
    forall|i: int, j: int|
        0 <= i < rows && 0 <= j < cols ==> #[trigger] b[i][j] != 0 && !(a[i][j] == i64::MIN && b[i][j]
            == -1)
}

impl<const T: usize, const N: usize> Matrix<T, N, i64> {
    /// Each entry multiplied by `scale_by`; `self` is left unchanged.
    pub fn scale(&self, scale_by: i64) -> (r: Self)
        requires
            scale_fits(self@, scale_by, T as int, N as int),
        ensures
            r@ == grid_scale(self@, scale_by, T as int, N as int),
    {
        let mut out = *self;
        let mut i: usize = 0;
        while i < T
            invariant
                0 <= i <= T,
                scale_fits(self@, scale_by, T as int, N as int),
                forall|x: int, y: int|
                    0 <= x < T && 0 <= y < N ==> #[trigger] out@[x][y] == if x < i {
                        (self@[x][y] * scale_by) as i64
                    } else {
                        self@[x][y]
                    },
            decreases T - i,
        {
            let mut j: usize = 0;
            while j < N
                invariant
                    0 <= j <= N,
                    i < T,
                    scale_fits(self@, scale_by, T as int, N as int),
                    forall|x: int, y: int|
                        0 <= x < T && 0 <= y < N ==> #[trigger] out@[x][y] == if x < i || (x == i
                            && y < j) {
                            (self@[x][y] * scale_by) as i64
                        } else {
                            self@[x][y]
                        },
                decreases N - j,
            {
                let v = out.get(i, j);
                let w = v * scale_by;
                out.set(i, j, w);
                j += 1;
            }
            i += 1;
        }
        proof {
            out.lemma_shape();
            lemma_grid_ext(out@, grid_scale(self@, scale_by, T as int, N as int), T as int, N as int);
        }
        out
    }

    /// The absolute value of each entry.
    pub fn abs(&self) -> (r: Self)
        requires
            negatable(self@, T as int, N as int),
        ensures
            r@ == grid_abs(self@, T as int, N as int),
    {
        let mut out = *self;
        let mut i: usize = 0;
        while i < T
            invariant
                0 <= i <= T,
                negatable(self@, T as int, N as int),
                forall|x: int, y: int|
                    0 <= x < T && 0 <= y < N ==> #[trigger] out@[x][y] == if x < i {
                        if self@[x][y] < 0 { (-self@[x][y]) as i64 } else { self@[x][y] }
                    } else {
                        self@[x][y]
                    },
            decreases T - i,
        {
            let mut j: usize = 0;
            while j < N
                invariant
                    0 <= j <= N,
                    i < T,
                    negatable(self@, T as int, N as int),
                    forall|x: int, y: int|
                        0 <= x < T && 0 <= y < N ==> #[trigger] out@[x][y] == if x < i || (x == i
                            && y < j) {
                            if self@[x][y] < 0 { (-self@[x][y]) as i64 } else { self@[x][y] }
                        } else {
                            self@[x][y]
                        },
                decreases N - j,
            {
                let v = out.get(i, j);
                let w = v.absolute();
                out.set(i, j, w);
                j += 1;
            }
            i += 1;
        }
        proof {
            out.lemma_shape();
            lemma_grid_ext(out@, grid_abs(self@, T as int, N as int), T as int, N as int);
        }
        out
    }

    /// The entry-wise product with `rhs`.
    pub fn elem_mult(&self, rhs: Self) -> (r: Self)
        requires
            products_fit(self@, rhs@, T as int, N as int),
        ensures
            r@ == grid_elem_mul(self@, rhs@, T as int, N as int),
    {
        let mut out = *self;
        let mut i: usize = 0;
        while i < T
            invariant
                0 <= i <= T,
                products_fit(self@, rhs@, T as int, N as int),
                forall|x: int, y: int|
                    0 <= x < T && 0 <= y < N ==> #[trigger] out@[x][y] == if x < i {
                        (self@[x][y] * rhs@[x][y]) as i64
                    } else {
                        self@[x][y]
                    },
            decreases T - i,
        {
            let mut j: usize = 0;
            while j < N
                invariant
                    0 <= j <= N,
                    i < T,
                    products_fit(self@, rhs@, T as int, N as int),
                    forall|x: int, y: int|
                        0 <= x < T && 0 <= y < N ==> #[trigger] out@[x][y] == if x < i || (x == i
                            && y < j) {
                            (self@[x][y] * rhs@[x][y]) as i64
                        } else {
                            self@[x][y]
                        },
                decreases N - j,
            {
                let v = out.get(i, j);
                let w = v * rhs.get(i, j);
                out.set(i, j, w);
                j += 1;
            }
            i += 1;
        }
        proof {
            out.lemma_shape();
            lemma_grid_ext(out@, grid_elem_mul(self@, rhs@, T as int, N as int), T as int, N as int);
        }
        out
    }

    /// The entry-wise quotient by `rhs`, rounded toward zero.
    pub fn elem_div(&self, rhs: Self) -> (r: Self)
        requires
            quotients_defined(self@, rhs@, T as int, N as int),
        ensures
            r@ == grid_elem_div(self@, rhs@, T as int, N as int),
    {
        let mut out = *self;
        let mut i: usize = 0;
        while i < T
            invariant
                0 <= i <= T,
                quotients_defined(self@, rhs@, T as int, N as int),
                forall|x: int, y: int|
                    0 <= x < T && 0 <= y < N ==> #[trigger] out@[x][y] == if x < i {
                        trunc_div(self@[x][y] as int, rhs@[x][y] as int) as i64
                    } else {
                        self@[x][y]
                    },
            decreases T - i,
        {
            let mut j: usize = 0;
            while j < N
                invariant
                    0 <= j <= N,
                    i < T,
                    quotients_defined(self@, rhs@, T as int, N as int),
                    forall|x: int, y: int|
                        0 <= x < T && 0 <= y < N ==> #[trigger] out@[x][y] == if x < i || (x == i
                            && y < j) {
                            trunc_div(self@[x][y] as int, rhs@[x][y] as int) as i64
                        } else {
                            self@[x][y]
                        },
                decreases N - j,
            {
                let v = out.get(i, j);
                let w = div_toward_zero(v, rhs.get(i, j));
                out.set(i, j, w);
                j += 1;
            }
            i += 1;
        }
        proof {
            out.lemma_shape();
            lemma_grid_ext(out@, grid_elem_div(self@, rhs@, T as int, N as int), T as int, N as int);
        }
        out
    }

    /// Each entry negated.
    pub fn negated(&self) -> (r: Self)
        requires
            negatable(self@, T as int, N as int),
        ensures
            r@ == grid_neg(self@, T as int, N as int),
    {
        let mut out = *self;
        let mut i: usize = 0;
        while i < T
            invariant
                0 <= i <= T,
                negatable(self@, T as int, N as int),
                forall|x: int, y: int|
                    0 <= x < T && 0 <= y < N ==> #[trigger] out@[x][y] == if x < i {
                        (-self@[x][y]) as i64
                    } else {
                        self@[x][y]
                    },
            decreases T - i,
        {
            let mut j: usize = 0;
            while j < N
                invariant
                    0 <= j <= N,
                    i < T,
                    negatable(self@, T as int, N as int),
                    forall|x: int, y: int|
                        0 <= x < T && 0 <= y < N ==> #[trigger] out@[x][y] == if x < i || (x == i
                            && y < j) {
                            (-self@[x][y]) as i64
                        } else {
                            self@[x][y]
                        },
                decreases N - j,
            {
                let v = out.get(i, j);
                let w = -v;
                out.set(i, j, w);
                j += 1;
            }
            i += 1;
        }
        proof {
            out.lemma_shape();
            lemma_grid_ext(out@, grid_neg(self@, T as int, N as int), T as int, N as int);
        }
        out
    }

    /// The entry-wise difference with `rhs`.
    pub fn minus(&self, rhs: Self) -> (r: Self)
        requires
            diffs_fit(self@, rhs@, T as int, N as int),
        ensures
            r@ == grid_sub(self@, rhs@, T as int, N as int),
    {
        let mut out = *self;
        let mut i: usize = 0;
        while i < T
            invariant
                0 <= i <= T,
                diffs_fit(self@, rhs@, T as int, N as int),
                forall|x: int, y: int|
                    0 <= x < T && 0 <= y < N ==> #[trigger] out@[x][y] == if x < i {
                        (self@[x][y] - rhs@[x][y]) as i64
                    } else {
                        self@[x][y]
                    },
            decreases T - i,
        {
            let mut j: usize = 0;
            while j < N
                invariant
                    0 <= j <= N,
                    i < T,
                    diffs_fit(self@, rhs@, T as int, N as int),
                    forall|x: int, y: int|
                        0 <= x < T && 0 <= y < N ==> #[trigger] out@[x][y] == if x < i || (x == i
                            && y < j) {
                            (self@[x][y] - rhs@[x][y]) as i64
                        } else {
                            self@[x][y]
                        },
                decreases N - j,
            {
                let v = out.get(i, j);
                let w = v - rhs.get(i, j);
                out.set(i, j, w);
                j += 1;
            }
            i += 1;
        }
        proof {
            out.lemma_shape();
            lemma_grid_ext(out@, grid_sub(self@, rhs@, T as int, N as int), T as int, N as int);
        }
        out
    }

    /// The entry-wise sum with `rhs`.
    pub fn plus(&self, rhs: Self) -> (r: Self)
        requires
            sums_fit(self@, rhs@, T as int, N as int),
        ensures
            r@ == grid_add(self@, rhs@, T as int, N as int),
    {
        let mut out = *self;
        let mut i: usize = 0;
        while i < T
            invariant
                0 <= i <= T,
                sums_fit(self@, rhs@, T as int, N as int),
                forall|x: int, y: int|
                    0 <= x < T && 0 <= y < N ==> #[trigger] out@[x][y] == if x < i {
                        (self@[x][y] + rhs@[x][y]) as i64
                    } else {
                        self@[x][y]
                    },
            decreases T - i,
        {
            let mut j: usize = 0;
            while j < N
                invariant
                    0 <= j <= N,
                    i < T,
                    sums_fit(self@, rhs@, T as int, N as int),
                    forall|x: int, y: int|
                        0 <= x < T && 0 <= y < N ==> #[trigger] out@[x][y] == if x < i || (x == i
                            && y < j) {
                            (self@[x][y] + rhs@[x][y]) as i64
                        } else {
                            self@[x][y]
                        },
                decreases N - j,
            {
                let v = out.get(i, j);
                let w = v + rhs.get(i, j);
                out.set(i, j, w);
                j += 1;
            }
            i += 1;
        }
        proof {
            out.lemma_shape();
            lemma_grid_ext(out@, grid_add(self@, rhs@, T as int, N as int), T as int, N as int);
        }
        out
    }

    /// Multiplies each entry by `v` in place.
    pub fn scale_set(&mut self, scale_by: i64)
        requires
            scale_fits(old(self)@, scale_by, T as int, N as int),
        ensures
            final(self)@ == grid_scale(old(self)@, scale_by, T as int, N as int),
    {
        *self = self.scale(scale_by);
    }

    /// Adds `rhs` to `self` in place.
    pub fn add_assign(&mut self, rhs: Self)
        requires
            sums_fit(old(self)@, rhs@, T as int, N as int),
        ensures
            final(self)@ == grid_add(old(self)@, rhs@, T as int, N as int),
    {
        *self = self.plus(rhs);
    }

    /// Subtracts `rhs` from `self` in place.
    pub fn sub_assign(&mut self, rhs: Self)
        requires
            diffs_fit(old(self)@, rhs@, T as int, N as int),
        ensures
            final(self)@ == grid_sub(old(self)@, rhs@, T as int, N as int),
    {
        *self = self.minus(rhs);
    }

    /// Replaces `self` by the matrix product `self · rhs`.
    pub fn mul_assign(&mut self, rhs: Matrix<N, N, i64>)
        requires
            mul_fits(old(self)@, rhs@, T as int, N as int, N as int),
        ensures
            ints(final(self)@) == mat_mul(ints(old(self)@), ints(rhs@), T as int, N as int, N as int),
    {
        *self = *self * rhs;
    }

    /// Replaces `self` by its entry-wise product with `rhs`.
    pub fn elem_mult_assign(&mut self, rhs: Self)
        requires
            products_fit(old(self)@, rhs@, T as int, N as int),
        ensures
            final(self)@ == grid_elem_mul(old(self)@, rhs@, T as int, N as int),
    {
        *self = self.elem_mult(rhs);
    }

    /// Replaces `self` by its entry-wise quotient by `rhs`.
    pub fn elem_div_assign(&mut self, rhs: Self)
        requires
            quotients_defined(old(self)@, rhs@, T as int, N as int),
        ensures
            final(self)@ == grid_elem_div(old(self)@, rhs@, T as int, N as int),
    {
        *self = self.elem_div(rhs);
    }
}

/// `row[0] + ... + row[k - 1]`.
pub open spec fn row_sum(row: Seq<i64>, k: int) -> int
    decreases k,
{
    if k <= 0 {
        0
    } else {
        row_sum(row, k - 1) + row[k - 1]
    }
}

/// The sum of the first `i` rows of `m`, each summed over `cols` entries.
pub open spec fn grid_sum(m: Seq<Seq<i64>>, cols: int, i: int) -> int
    decreases i,
{
    if i <= 0 {
        0
    } else {
        grid_sum(m, cols, i - 1) + row_sum(m[i - 1], cols)
    }
}

/// Every partial sum that summing `m` row by row computes fits in an `i64`.
pub open spec fn sum_fits(m: Seq<Seq<i64>>, rows: int, cols: int) -> bool {
    &&& forall|i: int, k: int|
        0 <= i < rows && 0 <= k <= cols ==> i64::MIN <= #[trigger] row_sum(m[i], k) <= i64::MAX
    &&& forall|i: int| 0 <= i <= rows ==> i64::MIN <= #[trigger] grid_sum(m, cols, i) <= i64::MAX
}

/// `m[0][0] + ... + m[i - 1][i - 1]`.
pub open spec fn trace_upto(m: Seq<Seq<i64>>, i: int) -> int
    decreases i,
{
    if i <= 0 {
        0
    } else {
        trace_upto(m, i - 1) + m[i - 1][i - 1]
    }
}

/// `x` is an entry of the `rows`×`cols` grid `m`.
pub open spec fn is_entry(m: Seq<Seq<i64>>, rows: int, cols: int, x: i64) -> bool {
    exists|i: int, j: int| 0 <= i < rows && 0 <= j < cols && #[trigger] m[i][j] == x
}

impl<const T: usize, const N: usize> Matrix<T, N, i64> {
    /// The sum of all entries.
    pub fn sum(&self) -> (r: i64)
        requires
            sum_fits(self@, T as int, N as int),
        ensures
            r == grid_sum(self@, N as int, T as int),
    {
        let mut acc: i64 = 0;
        let mut i: usize = 0;
        while i < T
            invariant
                0 <= i <= T,
                sum_fits(self@, T as int, N as int),
                acc == grid_sum(self@, N as int, i as int),
            decreases T - i,
        {
            let mut part: i64 = 0;
            let mut j: usize = 0;
            while j < N
                invariant
                    0 <= j <= N,
                    i < T,
                    sum_fits(self@, T as int, N as int),
                    part == row_sum(self@[i as int], j as int),
                decreases N - j,
            {
                proof {
                    assert(i64::MIN <= row_sum(self@[i as int], j + 1) <= i64::MAX);
                }
                part = part + self.0[i][j];
                j += 1;
            }
            proof {
                assert(i64::MIN <= grid_sum(self@, N as int, i + 1) <= i64::MAX);
            }
            acc = acc + part;
            i += 1;
        }
        acc
    }

    /// The largest entry.
    pub fn max(&self) -> (r: i64)
        requires
            T > 0,
            N > 0,
        ensures
            is_entry(self@, T as int, N as int, r),
            forall|i: int, j: int| 0 <= i < T && 0 <= j < N ==> #[trigger] self@[i][j] <= r,
    {
        let mut out = self.0[0][0];
        assert(self@[0][0] == out);
        let mut i: usize = 0;
        while i < T
            invariant
                0 <= i <= T,
                N > 0,
                is_entry(self@, T as int, N as int, out),
                forall|x: int, y: int| 0 <= x < i && 0 <= y < N ==> #[trigger] self@[x][y] <= out,
            decreases T - i,
        {
            let mut j: usize = 0;
            while j < N
                invariant
                    0 <= j <= N,
                    i < T,
                    is_entry(self@, T as int, N as int, out),
                    forall|x: int, y: int|
                        0 <= x < T && 0 <= y < N && (x < i || (x == i && y < j))
                            ==> #[trigger] self@[x][y] <= out,
                decreases N - j,
            {
                let v = self.0[i][j];
                if v > out {
                    assert(self@[i as int][j as int] == v);
                    out = v;
                }
                j += 1;
            }
            i += 1;
        }
        out
    }

    /// The smallest entry.
    pub fn min(&self) -> (r: i64)
        requires
            T > 0,
            N > 0,
        ensures
            is_entry(self@, T as int, N as int, r),
            forall|i: int, j: int| 0 <= i < T && 0 <= j < N ==> r <= #[trigger] self@[i][j],
    {
        let mut out = self.0[0][0];
        assert(self@[0][0] == out);
        let mut i: usize = 0;
        while i < T
            invariant
                0 <= i <= T,
                N > 0,
                is_entry(self@, T as int, N as int, out),
                forall|x: int, y: int| 0 <= x < i && 0 <= y < N ==> out <= #[trigger] self@[x][y],
            decreases T - i,
        {
            let mut j: usize = 0;
            while j < N
                invariant
                    0 <= j <= N,
                    i < T,
                    is_entry(self@, T as int, N as int, out),
                    forall|x: int, y: int|
                        0 <= x < T && 0 <= y < N && (x < i || (x == i && y < j))
                            ==> out <= #[trigger] self@[x][y],
                decreases N - j,
            {
                let v = self.0[i][j];
                if v < out {
                    assert(self@[i as int][j as int] == v);
                    out = v;
                }
                j += 1;
            }
            i += 1;
        }
        out
    }

    /// The smallest and the largest entry.
    pub fn min_max(&self) -> (r: (i64, i64))
        requires
            T > 0,
            N > 0,
        ensures
            is_entry(self@, T as int, N as int, r.0),
            is_entry(self@, T as int, N as int, r.1),
            forall|i: int, j: int|
                0 <= i < T && 0 <= j < N ==> r.0 <= #[trigger] self@[i][j] <= r.1,
    {
        (self.min(), self.max())
    }
}

impl<const T: usize> Matrix<T, T, i64> {
    /// The sum of the diagonal entries.
    pub fn trace(&self) -> (r: i64)
        requires
            forall|i: int| 0 <= i <= T ==> i64::MIN <= #[trigger] trace_upto(self@, i) <= i64::MAX,
        ensures
            r == trace_upto(self@, T as int),
    {
        let mut acc: i64 = 0;
        let mut i: usize = 0;
        while i < T
            invariant
                0 <= i <= T,
                forall|i: int| 0 <= i <= T ==> i64::MIN <= #[trigger] trace_upto(self@, i) <= i64::MAX,
                acc == trace_upto(self@, i as int),
            decreases T - i,
        {
            proof {
                assert(i64::MIN <= trace_upto(self@, i + 1) <= i64::MAX);
            }
            acc = acc + self.0[i][i];
            i += 1;
        }
        acc
    }
}

impl<const T: usize, const N: usize> vstd::std_specs::ops::AddSpecImpl for Matrix<T, N, i64> {
    // the result is stated on `add` itself
    open spec fn obeys_add_spec() -> bool {
        false
    }

    open spec fn add_req(self, rhs: Self) -> bool {
        sums_fit(self@, rhs@, T as int, N as int)
    }

    open spec fn add_spec(self, rhs: Self) -> Self {
        self
    }
}

impl<const T: usize, const N: usize> std::ops::Add for Matrix<T, N, i64> {
    type Output = Self;

    fn add(self, rhs: Self) -> (r: Self)
        ensures
            r@ == grid_add(self@, rhs@, T as int, N as int),
    {
        self.plus(rhs)
    }
}

impl<const T: usize, const N: usize> vstd::std_specs::ops::SubSpecImpl for Matrix<T, N, i64> {
    // the result is stated on `sub` itself
    open spec fn obeys_sub_spec() -> bool {
        false
    }

    open spec fn sub_req(self, rhs: Self) -> bool {
        diffs_fit(self@, rhs@, T as int, N as int)
    }

    open spec fn sub_spec(self, rhs: Self) -> Self {
        self
    }
}

impl<const T: usize, const N: usize> std::ops::Sub for Matrix<T, N, i64> {
    type Output = Self;

    fn sub(self, rhs: Self) -> (r: Self)
        ensures
            r@ == grid_sub(self@, rhs@, T as int, N as int),
    {
        self.minus(rhs)
    }
}

impl<const T: usize, const N: usize> vstd::std_specs::ops::NegSpecImpl for Matrix<T, N, i64> {
    // the result is stated on `neg` itself
    open spec fn obeys_neg_spec() -> bool {
        false
    }

    open spec fn neg_req(self) -> bool {
        negatable(self@, T as int, N as int)
    }

    open spec fn neg_spec(self) -> Self {
        self
    }
}

impl<const T: usize, const N: usize> std::ops::Neg for Matrix<T, N, i64> {
    type Output = Self;

    fn neg(self) -> (r: Self)
        ensures
            r@ == grid_neg(self@, T as int, N as int),
    {
        self.negated()
    }
}

/// Every product and every partial sum that `a · b` computes fits in an
/// `i64` (`a` is `rows`×`inner`, `b` is `inner`×`cols`).
pub open spec fn mul_fits(a: Seq<Seq<i64>>, b: Seq<Seq<i64>>, rows: int, inner: int, cols: int) -> bool {
    forall|i: int, j: int, k: int|
        0 <= i < rows && 0 <= j < cols && 0 <= k < inner ==> i64::MIN <= #[trigger] dot_upto(
            ints(a),
            ints(b),
            i,
            j,
            k + 1,
        ) <= i64::MAX && i64::MIN <= a[i][k] * b[k][j] <= i64::MAX
}

impl<const T: usize, const N: usize, const P: usize> vstd::std_specs::ops::MulSpecImpl<Matrix<N, P, i64>> for Matrix<T, N, i64> {
    // the result is stated on `mul` itself
    open spec fn obeys_mul_spec() -> bool {
        false
    }

    open spec fn mul_req(self, rhs: Matrix<N, P, i64>) -> bool {
        mul_fits(self@, rhs@, T as int, N as int, P as int)
    }

    open spec fn mul_spec(self, rhs: Matrix<N, P, i64>) -> Matrix<T, P, i64> {
        choose|r: Matrix<T, P, i64>|
            ints(r@) == mat_mul(ints(self@), ints(rhs@), T as int, N as int, P as int)
    }
}

impl<const T: usize, const N: usize, const P: usize> std::ops::Mul<Matrix<N, P, i64>> for Matrix<T, N, i64> {
    type Output = Matrix<T, P, i64>;

    /// The matrix product: entry `(i, j)` is the sum over `k` of
    /// `self[i][k] · rhs[k][j]`.
    fn mul(self, rhs: Matrix<N, P, i64>) -> (r: Matrix<T, P, i64>)
        ensures
            ints(r@) == mat_mul(ints(self@), ints(rhs@), T as int, N as int, P as int),
    {
        let ghost a = ints(self@);
        let ghost b = ints(rhs@);
        let ghost want = mat_mul(a, b, T as int, N as int, P as int);
        let mut out: Matrix<T, P, i64> = Matrix::filled_with(0i64);
        let mut i: usize = 0;
        while i < T
            invariant
                0 <= i <= T,
                a == ints(self@),
                b == ints(rhs@),
                want == mat_mul(a, b, T as int, N as int, P as int),
                mul_fits(self@, rhs@, T as int, N as int, P as int),
                forall|x: int, y: int|
                    0 <= x < i && 0 <= y < P ==> #[trigger] out@[x][y] as int == want[x][y],
            decreases T - i,
        {
            let mut j: usize = 0;
            while j < P
                invariant
                    0 <= j <= P,
                    i < T,
                    a == ints(self@),
                    b == ints(rhs@),
                    want == mat_mul(a, b, T as int, N as int, P as int),
                    mul_fits(self@, rhs@, T as int, N as int, P as int),
                    forall|x: int, y: int|
                        0 <= x < T && 0 <= y < P && (x < i || (x == i && y < j))
                            ==> #[trigger] out@[x][y] as int == want[x][y],
                decreases P - j,
            {
                let mut acc: i64 = 0;
                let mut k: usize = 0;
                while k < N
                    invariant
                        0 <= k <= N,
                        i < T,
                    j < P,
                        a == ints(self@),
                        b == ints(rhs@),
                        mul_fits(self@, rhs@, T as int, N as int, P as int),
                        acc as int == dot_upto(a, b, i as int, j as int, k as int),
                    decreases N - k,
                {
                    proof {
                        assert(i64::MIN <= dot_upto(a, b, i as int, j as int, k + 1) <= i64::MAX);
                    }
                    let prod = self.0[i][k] * rhs.0[k][j];
                    acc = acc + prod;
                    k += 1;
                }
                out.set(i, j, acc);
                j += 1;
            }
            i += 1;
        }
        proof {
            out.lemma_shape();
            assert(has_shape(ints(out@), T as int, P as int));
            lemma_grid_ext(ints(out@), want, T as int, P as int);
        }
        out
    }
}

/// Negating twice gives back the matrix.
pub proof fn lemma_double_negation(m: Seq<Seq<i64>>, rows: int, cols: int)
    requires
        has_shape(m, rows, cols),
        0 <= cols,
        negatable(m, rows, cols),
    ensures
        negatable(grid_neg(m, rows, cols), rows, cols),
        grid_neg(grid_neg(m, rows, cols), rows, cols) == m,
{
    let n = grid_neg(m, rows, cols);
    assert(has_shape(n, rows, cols));
    assert(has_shape(grid_neg(n, rows, cols), rows, cols));
    lemma_grid_ext(grid_neg(n, rows, cols), m, rows, cols);
}

} // verus!
