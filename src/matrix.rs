//! The fixed-size, row-major matrix type and its structural operations.
use vstd::prelude::*;
use crate::traits::Element;

verus! {

/// A `T`×`N` matrix of `L`, stored row-major: `self.0[row][col]`.
#[derive(Clone, Copy, Debug, PartialEq, Eq)]
pub struct Matrix<const T: usize, const N: usize, L>(pub [[L; N]; T]);

/// A row vector.
pub type Vector<const T: usize, L> = Matrix<1, T, L>;

/// A column vector.
pub type ColVector<const T: usize, L> = Matrix<T, 1, L>;

impl<const T: usize, const N: usize, L> View for Matrix<T, N, L> {
    type V = Seq<Seq<L>>;

    open spec fn view(&self) -> Seq<Seq<L>> {
        Seq::new(T as nat, |i: int| self.0@[i]@)
    }
}

/// A grid of mathematical integers, row by row.
pub type IntGrid = Seq<Seq<int>>;

/// `r` is a `rows`×`cols` grid.
pub open spec fn has_shape<L>(m: Seq<Seq<L>>, rows: int, cols: int) -> bool {
    &&& m.len() == rows
    &&& forall|i: int| 0 <= i < rows ==> #[trigger] m[i].len() == cols
}

/// The transpose of a `rows`×`cols` grid.
pub open spec fn transpose_of<L>(m: Seq<Seq<L>>, rows: int, cols: int) -> Seq<Seq<L>> {
    Seq::new(cols as nat, |j: int| Seq::new(rows as nat, |i: int| m[i][j]))
}

/// A `rows`×`cols` grid with every entry equal to `v`.
pub open spec fn filled<L>(rows: int, cols: int, v: L) -> Seq<Seq<L>> {
    Seq::new(rows as nat, |i: int| Seq::new(cols as nat, |j: int| v))
}

/// Two grids of one shape that agree at every entry are equal.
pub proof fn lemma_grid_ext<L>(a: Seq<Seq<L>>, b: Seq<Seq<L>>, rows: int, cols: int)
    requires
        has_shape(a, rows, cols),
        has_shape(b, rows, cols),
        forall|i: int, j: int| 0 <= i < rows && 0 <= j < cols ==> a[i][j] == b[i][j],
    ensures
        a == b,
{
    assert forall|i: int| 0 <= i < rows implies a[i] == b[i] by {
        assert(a[i] =~= b[i]);
    }
    assert(a =~= b);
}

/// The entries of `m` as mathematical integers.
pub open spec fn ints(m: Seq<Seq<i64>>) -> Seq<Seq<int>> {
    m.map_values(|row: Seq<i64>| row.map_values(|x: i64| x as int))
}

/// `a[i][0] · b[0][j] + ... + a[i][k - 1] · b[k - 1][j]`.
pub open spec fn dot_upto(a: Seq<Seq<int>>, b: Seq<Seq<int>>, i: int, j: int, k: int) -> int
    decreases k,
{
    if k <= 0 {
        0
    } else {
        dot_upto(a, b, i, j, k - 1) + a[i][k - 1] * b[k - 1][j]
    }
}

/// The product of a `rows`×`inner` grid and an `inner`×`cols` grid.
pub open spec fn mat_mul(a: Seq<Seq<int>>, b: Seq<Seq<int>>, rows: int, inner: int, cols: int) -> Seq<
    Seq<int>,
> {
    Seq::new(rows as nat, |i: int| Seq::new(cols as nat, |j: int| dot_upto(a, b, i, j, inner)))
}

/// Rust's `/` on integers: the quotient rounded toward zero.
pub open spec fn trunc_div(a: int, b: int) -> int {
    let q = (if a >= 0 { a } else { -a }) / (if b >= 0 { b } else { -b });
    if (a >= 0) == (b >= 0) { q } else { -q }
}

/// `a / b` with Rust's rounding toward zero.
pub fn div_toward_zero(a: i64, b: i64) -> (r: i64)
    requires
        b != 0,
        !(a == i64::MIN && b == -1),
    ensures
        r == trunc_div(a as int, b as int),
{
    let ua: u64 = if a >= 0 { a as u64 } else { (-(a as i128)) as u64 };
    let ub: u64 = if b >= 0 { b as u64 } else { (-(b as i128)) as u64 };
    let q: u64 = ua / ub;
    proof {
        assert(q <= ua) by (nonlinear_arith)
            requires
                q == ua / ub,
                ub >= 1,
        ;
        if a == i64::MIN && b < 0 {
            assert(ub >= 2);
            assert(q <= ua / 2) by (nonlinear_arith)
                requires
                    q == ua / ub,
                    ub >= 2,
            ;
        }
    }
    if (a >= 0) == (b >= 0) {
        q as i64
    } else {
        -(q as i128) as i64
    }
}

/// `Σ_{m < mm} a[i][m] · b[m][k] · c[k][j]`.
spec fn sum_m(a: IntGrid, b: IntGrid, c: IntGrid, i: int, j: int, k: int, mm: int) -> int
    decreases mm,
{
    if mm <= 0 {
        0
    } else {
        sum_m(a, b, c, i, j, k, mm - 1) + a[i][mm - 1] * b[mm - 1][k] * c[k][j]
    }
}

/// `Σ_{k < kk} a[i][m] · b[m][k] · c[k][j]`.
spec fn sum_k(a: IntGrid, b: IntGrid, c: IntGrid, i: int, j: int, m: int, kk: int) -> int
    decreases kk,
{
    if kk <= 0 {
        0
    } else {
        sum_k(a, b, c, i, j, m, kk - 1) + a[i][m] * b[m][kk - 1] * c[kk - 1][j]
    }
}

/// `Σ_{k < kk} Σ_{m < mm} a[i][m] · b[m][k] · c[k][j]`.
spec fn sum_km(a: IntGrid, b: IntGrid, c: IntGrid, i: int, j: int, kk: int, mm: int) -> int
    decreases kk,
{
    if kk <= 0 {
        0
    } else {
        sum_km(a, b, c, i, j, kk - 1, mm) + sum_m(a, b, c, i, j, kk - 1, mm)
    }
}

/// `Σ_{m < mm} Σ_{k < kk} a[i][m] · b[m][k] · c[k][j]`.
spec fn sum_mk(a: IntGrid, b: IntGrid, c: IntGrid, i: int, j: int, mm: int, kk: int) -> int
    decreases mm,
{
    if mm <= 0 {
        0
    } else {
        sum_mk(a, b, c, i, j, mm - 1, kk) + sum_k(a, b, c, i, j, mm - 1, kk)
    }
}

proof fn lemma_sum_mk_peel(a: IntGrid, b: IntGrid, c: IntGrid, i: int, j: int, mm: int, kk: int)
    requires
        kk > 0,
    ensures
        sum_mk(a, b, c, i, j, mm, kk) == sum_mk(a, b, c, i, j, mm, kk - 1) + sum_m(
            a,
            b,
            c,
            i,
            j,
            kk - 1,
            mm,
        ),
    decreases mm,
{
    if mm > 0 {
        lemma_sum_mk_peel(a, b, c, i, j, mm - 1, kk);
    }
}

proof fn lemma_sum_swap(a: IntGrid, b: IntGrid, c: IntGrid, i: int, j: int, kk: int, mm: int)
    ensures
        sum_km(a, b, c, i, j, kk, mm) == sum_mk(a, b, c, i, j, mm, kk),
    decreases kk,
{
    if kk > 0 {
        lemma_sum_swap(a, b, c, i, j, kk - 1, mm);
        lemma_sum_mk_peel(a, b, c, i, j, mm, kk);
    } else {
        lemma_sum_mk_zero(a, b, c, i, j, mm, kk);
    }
}

proof fn lemma_sum_mk_zero(a: IntGrid, b: IntGrid, c: IntGrid, i: int, j: int, mm: int, kk: int)
    requires
        kk <= 0,
    ensures
        sum_mk(a, b, c, i, j, mm, kk) == 0,
    decreases mm,
{
    if mm > 0 {
        lemma_sum_mk_zero(a, b, c, i, j, mm - 1, kk);
    }
}

proof fn lemma_left_distrib(a: IntGrid, b: IntGrid, c: IntGrid, i: int, j: int, k: int, mm: int)
    ensures
        dot_upto(a, b, i, k, mm) * c[k][j] == sum_m(a, b, c, i, j, k, mm),
    decreases mm,
{
    if mm > 0 {
        lemma_left_distrib(a, b, c, i, j, k, mm - 1);
        let x = dot_upto(a, b, i, k, mm - 1);
        let y = a[i][mm - 1] * b[mm - 1][k];
        let z = c[k][j];
        assert((x + y) * z == x * z + y * z) by (nonlinear_arith);
        assert(y * z == a[i][mm - 1] * b[mm - 1][k] * c[k][j]);
    }
}

proof fn lemma_right_distrib(a: IntGrid, b: IntGrid, c: IntGrid, i: int, j: int, m: int, kk: int)
    ensures
        a[i][m] * dot_upto(b, c, m, j, kk) == sum_k(a, b, c, i, j, m, kk),
    decreases kk,
{
    if kk > 0 {
        lemma_right_distrib(a, b, c, i, j, m, kk - 1);
        let x = dot_upto(b, c, m, j, kk - 1);
        let y = b[m][kk - 1] * c[kk - 1][j];
        let w = a[i][m];
        assert(w * (x + y) == w * x + w * y) by (nonlinear_arith);
        assert(w * y == a[i][m] * b[m][kk - 1] * c[kk - 1][j]) by (nonlinear_arith)
            requires
                y == b[m][kk - 1] * c[kk - 1][j],
                w == a[i][m],
        ;
    }
}

proof fn lemma_assoc_left(a: IntGrid, b: IntGrid, c: IntGrid, n: int, i: int, j: int, kk: int)
    requires
        0 <= i < n,
        0 <= kk <= n,
    ensures
        dot_upto(mat_mul(a, b, n, n, n), c, i, j, kk) == sum_km(a, b, c, i, j, kk, n),
    decreases kk,
{
    if kk > 0 {
        lemma_assoc_left(a, b, c, n, i, j, kk - 1);
        lemma_left_distrib(a, b, c, i, j, kk - 1, n);
    }
}

proof fn lemma_assoc_right(a: IntGrid, b: IntGrid, c: IntGrid, n: int, i: int, j: int, mm: int)
    requires
        0 <= j < n,
        0 <= mm <= n,
    ensures
        dot_upto(a, mat_mul(b, c, n, n, n), i, j, mm) == sum_mk(a, b, c, i, j, mm, n),
    decreases mm,
{
    if mm > 0 {
        lemma_assoc_right(a, b, c, n, i, j, mm - 1);
        lemma_right_distrib(a, b, c, i, j, mm - 1, n);
    }
}

/// The product of `n`×`n` integer grids is associative.
pub proof fn lemma_mat_mul_assoc(a: IntGrid, b: IntGrid, c: IntGrid, n: int)
    requires
        0 <= n,
    ensures
        mat_mul(mat_mul(a, b, n, n, n), c, n, n, n) == mat_mul(a, mat_mul(b, c, n, n, n), n, n, n),
{
    let lhs = mat_mul(mat_mul(a, b, n, n, n), c, n, n, n);
    let rhs = mat_mul(a, mat_mul(b, c, n, n, n), n, n, n);
    assert forall|i: int, j: int| 0 <= i < n && 0 <= j < n implies lhs[i][j] == rhs[i][j] by {
        lemma_assoc_left(a, b, c, n, i, j, n);
        lemma_assoc_right(a, b, c, n, i, j, n);
        lemma_sum_swap(a, b, c, i, j, n, n);
    }
    lemma_grid_ext(lhs, rhs, n, n);
}

/// Transposing twice gives back the grid.
pub proof fn lemma_double_transpose<L>(m: Seq<Seq<L>>, rows: int, cols: int)
    requires
        has_shape(m, rows, cols),
        0 <= rows,
        0 <= cols,
    ensures
        transpose_of(transpose_of(m, rows, cols), cols, rows) == m,
{
    let t = transpose_of(m, rows, cols);
    assert(has_shape(t, cols, rows));
    assert(has_shape(transpose_of(t, cols, rows), rows, cols));
    lemma_grid_ext(transpose_of(t, cols, rows), m, rows, cols);
}

pub fn fill_array<L: Copy, const N: usize>(v: L) -> (r: [L; N])
    ensures
        r@ == Seq::new(N as nat, |j: int| v),
{
    let r = vstd::array::array_fill_for_copy_types::<L, N>(v);
    assert(r@ =~= Seq::new(N as nat, |j: int| v));
    r
}

impl<const T: usize, const N: usize, L: Copy> Matrix<T, N, L> {
    pub proof fn lemma_shape(&self)
        ensures
            has_shape(self@, T as int, N as int),
    {
    }

    /// Wraps a nested array, row by row.
    pub fn new(data: [[L; N]; T]) -> (r: Self)
        ensures
            r.0 == data,
    {
        Matrix(data)
    }

    /// A matrix with every entry `v`.
    pub fn filled_with(v: L) -> (r: Self)
        ensures
            r@ == filled(T as int, N as int, v),
    {
        let row = fill_array::<L, N>(v);
        let r = Matrix(fill_array::<[L; N], T>(row));
        assert(r@ =~= filled(T as int, N as int, v));
        r
    }

    /// The entry at `(row, col)`.
    pub fn get(&self, row: usize, col: usize) -> (r: L)
        requires
            row < T,
            col < N,
        ensures
            r == self@[row as int][col as int],
    {
        self.0[row][col]
    }

    /// Overwrites row `row`.
    pub fn set_row(&mut self, row: usize, v: [L; N])
        requires
            row < T,
        ensures
            final(self)@ == old(self)@.update(row as int, v@),
    {
        self.0[row] = v;
        assert(self@ =~= old(self)@.update(row as int, v@));
    }

    /// Overwrites the entry at `(row, col)`.
    pub fn set(&mut self, row: usize, col: usize, v: L)
        requires
            row < T,
            col < N,
        ensures
            final(self)@ == old(self)@.update(row as int, old(self)@[row as int].update(col as int, v)),
    {
        let mut r = self.0[row];
        r[col] = v;
        self.0[row] = r;
        assert(self@ =~= old(self)@.update(row as int, old(self)@[row as int].update(col as int, v)));
    }

}

impl<const T: usize, const N: usize, L: Element> Matrix<T, N, L> {
    /// The transposed matrix; `self` is left unchanged.
    pub fn transpose(&self) -> (r: Matrix<N, T, L>)
        ensures
            r@ == transpose_of(self@, T as int, N as int),
    {
        let mut out: Matrix<N, T, L> = Matrix::filled_with(L::zero());
        let mut j: usize = 0;
        while j < N
            invariant
                0 <= j <= N,
                has_shape(out@, N as int, T as int),
                forall|a: int, b: int|
                    0 <= a < j && 0 <= b < T ==> #[trigger] out@[a][b] == self@[b][a],
            decreases N - j,
        {
            let mut i: usize = 0;
            while i < T
                invariant
                    0 <= i <= T,
                    j < N,
                    has_shape(out@, N as int, T as int),
                    forall|a: int, b: int|
                        0 <= a < j && 0 <= b < T ==> #[trigger] out@[a][b] == self@[b][a],
                    forall|b: int| 0 <= b < i ==> #[trigger] out@[j as int][b] == self@[b][j as int],
                decreases T - i,
            {
                let v = self.get(i, j);
                out.set(j, i, v);
                i += 1;
            }
            j += 1;
        }
        proof {
            lemma_grid_ext(out@, transpose_of(self@, T as int, N as int), N as int, T as int);
        }
        out
    }
}

/// An index outside the matrix: which axis, the index, and the size of that
/// axis (the valid range is `0..size`).
#[derive(Clone, Copy, Debug, PartialEq, Eq)]
pub enum BoundsError {
    Row { index: usize, size: usize },
    Column { index: usize, size: usize },
}

/// The `n`×`n` grid with `one` on the diagonal and `zero` elsewhere.
pub open spec fn identity_grid<L>(n: int, zero: L, one: L) -> Seq<Seq<L>> {
    Seq::new(n as nat, |i: int| Seq::new(n as nat, |j: int| if i == j { one } else { zero }))
}

impl<const T: usize, const N: usize, L: Element> Matrix<T, N, L> {
    /// The matrix of zeros.
    pub fn empty() -> (r: Self)
        ensures
            r@ == filled(T as int, N as int, L::spec_zero()),
    {
        Self::filled_with(L::zero())
    }
}

impl<const T: usize, const N: usize, L: Copy> Matrix<T, N, L> {
    /// The entry at `(row, col)`, or which index lies outside the matrix
    /// (the row is checked first).
    pub fn at(&self, row: usize, col: usize) -> (r: Result<L, BoundsError>)
        ensures
            row >= T ==> r == Err::<L, BoundsError>(BoundsError::Row { index: row, size: T }),
            row < T && col >= N ==> r == Err::<L, BoundsError>(
                BoundsError::Column { index: col, size: N },
            ),
            row < T && col < N ==> r == Ok::<L, BoundsError>(self@[row as int][col as int]),
    {
        if row >= T {
            Err(BoundsError::Row { index: row, size: T })
        } else if col >= N {
            Err(BoundsError::Column { index: col, size: N })
        } else {
            Ok(self.0[row][col])
        }
    }
}

impl<const T: usize, L: Element> Matrix<T, T, L> {
    /// The identity matrix: ones on the diagonal, zeros elsewhere.
    pub fn identity() -> (r: Self)
        ensures
            r@ == identity_grid(T as int, L::spec_zero(), L::spec_one()),
    {
        let mut out = Self::empty();
        let one = L::one();
        let mut i: usize = 0;
        while i < T
            invariant
                0 <= i <= T,
                one == L::spec_one(),
                forall|x: int, y: int|
                    0 <= x < T && 0 <= y < T ==> #[trigger] out@[x][y] == if x == y && x < i {
                        L::spec_one()
                    } else {
                        L::spec_zero()
                    },
            decreases T - i,
        {
            out.set(i, i, one);
            i += 1;
        }
        proof {
            out.lemma_shape();
            lemma_grid_ext(
                out@,
                identity_grid(T as int, L::spec_zero(), L::spec_one()),
                T as int,
                T as int,
            );
        }
        out
    }

    /// The diagonal as a row vector.
    pub fn diag(&self) -> (r: Vector<T, L>)
        ensures
            r@.len() == 1,
            r@[0] == Seq::new(T as nat, |i: int| self@[i][i]),
    {
        let mut out: Vector<T, L> = Matrix::empty();
        let mut i: usize = 0;
        while i < T
            invariant
                0 <= i <= T,
                forall|y: int| 0 <= y < i ==> #[trigger] out@[0][y] == self@[y][y],
            decreases T - i,
        {
            let v = self.get(i, i);
            out.set(0, i, v);
            i += 1;
        }
        assert(out@[0] =~= Seq::new(T as nat, |i: int| self@[i][i]));
        out
    }
}

impl<const T: usize, L: Copy> Matrix<T, T, L> {
    /// Transposes a square matrix in place.
    pub fn transpose_set(&mut self)
        ensures
            final(self)@ == transpose_of(old(self)@, T as int, T as int),
    {
        let ghost m = self@;
        let mut i: usize = 0;
        while i < T
            invariant
                0 <= i <= T,
                forall|x: int, y: int|
                    0 <= x < T && 0 <= y < T ==> #[trigger] self@[x][y] == if x < i || y < i {
                        m[y][x]
                    } else {
                        m[x][y]
                    },
            decreases T - i,
        {
            let mut j: usize = i + 1;
            while j < T
                invariant
                    i < T,
                    i + 1 <= j <= T,
                    forall|x: int, y: int|
                        0 <= x < T && 0 <= y < T ==> #[trigger] self@[x][y] == if x < i || y < i
                            || (x == i && i < y < j) || (y == i && i < x < j) {
                            m[y][x]
                        } else {
                            m[x][y]
                        },
                decreases T - j,
            {
                let a = self.get(i, j);
                let b = self.get(j, i);
                self.set(i, j, b);
                self.set(j, i, a);
                j += 1;
            }
            i += 1;
        }
        proof {
            self.lemma_shape();
            lemma_grid_ext(self@, transpose_of(m, T as int, T as int), T as int, T as int);
        }
    }
}

} // verus!
