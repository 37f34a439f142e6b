//! LU decomposition by elimination, and PLU decomposition by search over
//! row orderings.
use vstd::prelude::*;
use crate::det::{
    all_below, count_of, lemma_count_range, lemma_perms_count, lemma_perms_of, orderings_within, perms_of,
    permutations_of, range_seq,
};
use crate::matrix::{
    div_toward_zero, dot_upto, has_shape, ints, lemma_grid_ext, lemma_mat_mul_assoc, mat_mul, trunc_div,
    Matrix,
};

verus! {

/// The `n`×`n` grid of zeros.
pub open spec fn zero_grid(n: nat) -> Seq<Seq<int>> {
    Seq::new(n, |i: int| Seq::new(n, |j: int| 0int))
}

/// `lower` after pivot `r`: column `r` from row `r` down is copied from `upper`.
pub open spec fn lower_after(l: Seq<Seq<int>>, u: Seq<Seq<int>>, r: int, n: nat) -> Seq<Seq<int>> {
    Seq::new(n, |i: int| Seq::new(n, |j: int| if j == r && i >= r { u[i][r] } else { l[i][j] }))
}

/// `upper` after pivot `r`: row `r` is divided by the pivot `u[r][r]`, then
/// from each later row the multiple of row `r` that clears column `r` is
/// subtracted (in columns `r..n`).
pub open spec fn upper_after(u: Seq<Seq<int>>, r: int, n: nat) -> Seq<Seq<int>> {
    Seq::new(
        n,
        |i: int|
            Seq::new(
                n,
                |j: int|
                    if i == r {
                        trunc_div(u[r][j], u[r][r])
                    } else if i > r && j >= r {
                        u[i][j] - u[i][r] * trunc_div(u[r][j], u[r][r])
                    } else {
                        u[i][j]
                    },
            ),
    )
}

/// The `(lower, upper)` pair after the first `r` pivots of the elimination
/// on the `n`×`n` grid `a`, or `None` once a pivot has been zero.
pub open spec fn lu_run(a: Seq<Seq<int>>, n: nat, r: nat) -> Option<(Seq<Seq<int>>, Seq<Seq<int>>)>
    decreases r,
{
    if r == 0 {
        Some((zero_grid(n), a))
    } else {
        match lu_run(a, n, (r - 1) as nat) {
            Some((l, u)) => if u[r - 1][r - 1] == 0 {
                None
            } else {
                Some((lower_after(l, u, r - 1, n), upper_after(u, r - 1, n)))
            },
            None => None,
        }
    }
}

pub open spec fn fits_i64(x: int) -> bool {
    i64::MIN <= x <= i64::MAX
}

/// Pivot `r` on `u` computes only values that fit in an `i64`.
pub open spec fn pivot_fits(u: Seq<Seq<int>>, r: int, n: nat) -> bool {
    &&& forall|j: int| 0 <= j < n ==> !(#[trigger] u[r][j] == i64::MIN && u[r][r] == -1)
    &&& forall|i: int, j: int|
        r < i < n && r <= j < n ==> fits_i64(u[i][r] * trunc_div(u[r][j], u[r][r]))
            && fits_i64(#[trigger] u[i][j] - u[i][r] * trunc_div(u[r][j], u[r][r]))
}

/// Every pivot that the elimination on `a` reaches computes only values that
/// fit in an `i64`.
pub open spec fn lu_fits(a: Seq<Seq<int>>, n: nat) -> bool {
    forall|r: nat|
        r < n ==> match #[trigger] lu_run(a, n, r) {
            Some((l, u)) => u[r as int][r as int] != 0 ==> pivot_fits(u, r as int, n),
            None => true,
        }
}

proof fn lemma_lu_none_stays(a: Seq<Seq<int>>, n: nat, r: nat, s: nat)
    requires
        r <= s,
        lu_run(a, n, r) is None,
    ensures
        lu_run(a, n, s) is None,
    decreases s - r,
{
    if r < s {
        lemma_lu_none_stays(a, n, r, (s - 1) as nat);
    }
}

/// LU decomposition of square matrices.
pub trait LUDecompose: Sized {
    /// The elimination on `self` stays within the element type.
    spec fn lu_defined(&self) -> bool;

    /// `r` is what the elimination on `self` yields.
    spec fn lu_matches(&self, r: Option<(Self, Self)>) -> bool;

    /// Eliminates column by column: `None` when a pivot is zero, else the
    /// lower and upper factors.
    fn lu_decompose(&self) -> (r: Option<(Self, Self)>)
        requires
            self.lu_defined(),
        ensures
            self.lu_matches(r),
    ;
}

impl<const T: usize> LUDecompose for Matrix<T, T, i64> {
    open spec fn lu_defined(&self) -> bool {
        lu_fits(ints(self@), T as nat)
    }

    open spec fn lu_matches(&self, r: Option<(Self, Self)>) -> bool {
        match r {
            Some((l, u)) => lu_run(ints(self@), T as nat, T as nat) == Some((ints(l@), ints(u@))),
            None => lu_run(ints(self@), T as nat, T as nat) is None,
        }
    }

    fn lu_decompose(&self) -> (r: Option<(Self, Self)>) {
        let ghost a = ints(self@);
        let mut upper = *self;
        let mut lower: Self = Matrix::filled_with(0i64);
        proof {
            upper.lemma_shape();
            lower.lemma_shape();
            crate::matrix::lemma_grid_ext(ints(lower@), zero_grid(T as nat), T as int, T as int);
            assert(ints(upper@) =~= a);
        }
        let mut r: usize = 0;
        while r < T
            invariant
                0 <= r <= T,
                a == ints(self@),
                lu_fits(a, T as nat),
                lu_run(a, T as nat, r as nat) == Some((ints(lower@), ints(upper@))),
            decreases T - r,
        {
            let ghost l0 = ints(lower@);
            let ghost u0 = ints(upper@);
            let scale = upper.get(r, r);
            if scale == 0 {
                proof {
                    lemma_lu_none_stays(a, T as nat, (r + 1) as nat, T as nat);
                }
                return None;
            }
            proof {
                assert(pivot_fits(u0, r as int, T as nat)) by {
                    assert(lu_run(a, T as nat, r as nat) is Some);
                }
            }
            let mut i: usize = r;
            while i < T
                invariant
                    r <= i <= T,
                    r < T,
                    ints(upper@) == u0,
                    forall|x: int, y: int|
                        0 <= x < T && 0 <= y < T ==> #[trigger] lower@[x][y] as int == if y == r
                            && r <= x < i {
                            u0[x][r as int]
                        } else {
                            l0[x][y]
                        },
                decreases T - i,
            {
                let v = upper.get(i, r);
                lower.set(i, r, v);
                i += 1;
            }
            // divide row r by the pivot
            let mut j: usize = 0;
            while j < T
                invariant
                    0 <= j <= T,
                    r < T,
                    scale as int == u0[r as int][r as int],
                    scale != 0,
                    pivot_fits(u0, r as int, T as nat),
                    forall|x: int, y: int|
                        0 <= x < T && 0 <= y < T ==> #[trigger] upper@[x][y] as int == if x == r
                            && y < j {
                            trunc_div(u0[r as int][y], u0[r as int][r as int])
                        } else {
                            u0[x][y]
                        },
                decreases T - j,
            {
                let v = upper.get(r, j);
                let q = div_toward_zero(v, scale);
                upper.set(r, j, q);
                j += 1;
            }
            // clear column r below the pivot
            let mut row: usize = r + 1;
            while row < T
                invariant
                    r + 1 <= row <= T,
                    r < T,
                    pivot_fits(u0, r as int, T as nat),
                    forall|x: int, y: int|
                        0 <= x < T && 0 <= y < T ==> #[trigger] upper@[x][y] as int == if x < row {
                            upper_after(u0, r as int, T as nat)[x][y]
                        } else {
                            u0[x][y]
                        },
                decreases T - row,
            {
                let s2 = upper.get(row, r);
                let mut col: usize = r;
                while col < T
                    invariant
                        r <= col <= T,
                        r < row < T,
                        s2 as int == u0[row as int][r as int],
                        pivot_fits(u0, r as int, T as nat),
                        forall|x: int, y: int|
                            0 <= x < T && 0 <= y < T ==> #[trigger] upper@[x][y] as int == if x
                                < row || (x == row && r <= y < col) {
                                upper_after(u0, r as int, T as nat)[x][y]
                            } else {
                                u0[x][y]
                            },
                    decreases T - col,
                {
                    let top = upper.get(r, col);
                    let cur = upper.get(row, col);
                    proof {
                        let ghost pivot = u0[r as int][r as int];
                        let ghost q = trunc_div(u0[r as int][col as int], pivot);
                        assert(top as int == q);
                        assert(fits_i64(u0[row as int][r as int] * q));
                    }
                    let prod = s2 * top;
                    upper.set(row, col, cur - prod);
                    col += 1;
                }
                row += 1;
            }
            proof {
                upper.lemma_shape();
                lower.lemma_shape();
                crate::matrix::lemma_grid_ext(
                    ints(upper@),
                    upper_after(u0, r as int, T as nat),
                    T as int,
                    T as int,
                );
                crate::matrix::lemma_grid_ext(
                    ints(lower@),
                    lower_after(l0, u0, r as int, T as nat),
                    T as int,
                    T as int,
                );
            }
            r += 1;
        }
        Some((lower, upper))
    }
}

/// The lower factor after `r` pivots (meaningful when the run reached them).
pub open spec fn lower_at(a: Seq<Seq<int>>, n: nat, r: nat) -> Seq<Seq<int>> {
    match lu_run(a, n, r) {
        Some((l, u)) => l,
        None => zero_grid(n),
    }
}

/// The upper factor after `r` pivots (meaningful when the run reached them).
pub open spec fn upper_at(a: Seq<Seq<int>>, n: nat, r: nat) -> Seq<Seq<int>> {
    match lu_run(a, n, r) {
        Some((l, u)) => u,
        None => a,
    }
}

/// Every division that the elimination on `a` performs is exact.
pub open spec fn lu_exact(a: Seq<Seq<int>>, n: nat) -> bool {
    forall|r: nat|
        r < n ==> match #[trigger] lu_run(a, n, r) {
            Some((l, u)) => u[r as int][r as int] != 0 ==> forall|j: int|
                0 <= j < n ==> #[trigger] trunc_div(u[r as int][j], u[r as int][r as int]) * u[
                    r as int
                ][r as int] == u[r as int][j],
            None => true,
        }
}

/// What holds after `r` pivots when all divisions were exact: the columns of
/// `l` from `r` on are zero, so are the entries of `u` left of column `r`
/// from row `r` down, and `a` is `l · u` over the first `r` columns of `l`
/// plus what is left in `u` from row `r` down.
spec fn lu_invariant(a: Seq<Seq<int>>, n: nat, r: int, l: Seq<Seq<int>>, u: Seq<Seq<int>>) -> bool {
    &&& has_shape(l, n as int, n as int)
    &&& has_shape(u, n as int, n as int)
    &&& forall|i: int, c: int| 0 <= i < n && r <= c < n ==> #[trigger] l[i][c] == 0
    &&& forall|i: int, j: int| r <= i < n && 0 <= j < r ==> #[trigger] u[i][j] == 0
    &&& forall|i: int, j: int|
        0 <= i < n && 0 <= j < n ==> #[trigger] a[i][j] == dot_upto(l, u, i, j, r) + if i >= r {
            u[i][j]
        } else {
            0
        }
}

proof fn lemma_dot_congruent(
    l: Seq<Seq<int>>,
    u: Seq<Seq<int>>,
    l2: Seq<Seq<int>>,
    u2: Seq<Seq<int>>,
    i: int,
    j: int,
    k: int,
)
    requires
        forall|t: int| 0 <= t < k ==> #[trigger] l[i][t] == l2[i][t],
        forall|t: int| 0 <= t < k ==> #[trigger] u[t][j] == u2[t][j],
    ensures
        dot_upto(l, u, i, j, k) == dot_upto(l2, u2, i, j, k),
    decreases k,
{
    if k > 0 {
        lemma_dot_congruent(l, u, l2, u2, i, j, k - 1);
        assert(l[i][k - 1] == l2[i][k - 1] && u[k - 1][j] == u2[k - 1][j]);
    }
}

proof fn lemma_div_self(s: int)
    requires
        s != 0,
    ensures
        trunc_div(s, s) == 1,
{
    let m = if s >= 0 { s } else { -s };
    assert(m / m == 1) by (nonlinear_arith)
        requires
            m > 0,
    ;
}

proof fn lemma_div_zero(s: int)
    requires
        s != 0,
    ensures
        trunc_div(0, s) == 0,
{
    let m = if s >= 0 { s } else { -s };
    assert(0int / m == 0) by (nonlinear_arith)
        requires
            m > 0,
    ;
}

proof fn lemma_lu_step(a: Seq<Seq<int>>, n: nat, r: int, l: Seq<Seq<int>>, u: Seq<Seq<int>>)
    requires
        0 <= r < n,
        lu_invariant(a, n, r, l, u),
        u[r][r] != 0,
        forall|j: int| 0 <= j < n ==> #[trigger] trunc_div(u[r][j], u[r][r]) * u[r][r] == u[r][j],
    ensures
        lu_invariant(a, n, r + 1, lower_after(l, u, r, n), upper_after(u, r, n)),
{
    let l2 = lower_after(l, u, r, n);
    let u2 = upper_after(u, r, n);
    let s = u[r][r];
    lemma_div_self(s);
    lemma_div_zero(s);
    assert(has_shape(l2, n as int, n as int));
    assert(has_shape(u2, n as int, n as int));
    assert forall|i: int, j: int| r + 1 <= i < n && 0 <= j < r + 1 implies #[trigger] u2[i][j] == 0 by {
        if j == r {
            assert(trunc_div(u[r][r], s) == 1);
            assert(u[i][r] * 1 == u[i][r]);
        }
    }
    assert forall|i: int, j: int| 0 <= i < n && 0 <= j < n implies #[trigger] a[i][j] == dot_upto(
        l2,
        u2,
        i,
        j,
        r + 1,
    ) + if i >= r + 1 {
        u2[i][j]
    } else {
        0
    } by {
        assert forall|t: int| 0 <= t < r implies #[trigger] l[i][t] == l2[i][t] by {}
        assert forall|t: int| 0 <= t < r implies #[trigger] u[t][j] == u2[t][j] by {}
        lemma_dot_congruent(l, u, l2, u2, i, j, r);
        let q = trunc_div(u[r][j], s);
        assert(dot_upto(l2, u2, i, j, r + 1) == dot_upto(l, u, i, j, r) + l2[i][r] * u2[r][j]);
        assert(u2[r][j] == q);
        assert(q * s == u[r][j]);
        if i < r {
            assert(l2[i][r] == 0);
            assert(0 * q == 0);
        } else if i == r {
            assert(l2[i][r] == s);
            assert(s * q == q * s) by (nonlinear_arith);
        } else {
            assert(l2[i][r] == u[i][r]);
            if j < r {
                assert(u[r][j] == 0);
                assert(q == 0);
                assert(u[i][r] * 0 == 0);
            }
        }
    }
}

/// When every division of the elimination is exact, the lower factor times
/// the upper factor is the matrix itself.
pub proof fn lemma_lu_product(a: Seq<Seq<int>>, n: nat)
    requires
        has_shape(a, n as int, n as int),
        lu_run(a, n, n) is Some,
        lu_exact(a, n),
    ensures
        mat_mul(lower_at(a, n, n), upper_at(a, n, n), n as int, n as int, n as int) == a,
{
    lemma_lu_prefix(a, n, n);
    let l = lower_at(a, n, n);
    let u = upper_at(a, n, n);
    let m = mat_mul(l, u, n as int, n as int, n as int);
    assert forall|i: int, j: int| 0 <= i < n && 0 <= j < n implies m[i][j] == a[i][j] by {
        assert(a[i][j] == dot_upto(l, u, i, j, n as int) + 0);
    }
    lemma_grid_ext(m, a, n as int, n as int);
}

proof fn lemma_lu_prefix(a: Seq<Seq<int>>, n: nat, r: nat)
    requires
        has_shape(a, n as int, n as int),
        r <= n,
        lu_run(a, n, r) is Some,
        lu_exact(a, n),
    ensures
        lu_invariant(a, n, r as int, lower_at(a, n, r), upper_at(a, n, r)),
    decreases r,
{
    if r == 0 {
        let z = zero_grid(n);
        assert(has_shape(z, n as int, n as int));
        assert forall|i: int, j: int| 0 <= i < n && 0 <= j < n implies #[trigger] a[i][j]
            == dot_upto(z, a, i, j, 0) + if i >= 0 {
            a[i][j]
        } else {
            0
        } by {}
    } else {
        let p = (r - 1) as nat;
        lemma_lu_prefix(a, n, p);
        let l = lower_at(a, n, p);
        let u = upper_at(a, n, p);
        assert(u[p as int][p as int] != 0);
        assert(lu_run(a, n, p) is Some);
        lemma_lu_step(a, n, p as int, l, u);
    }
}

/// The grid whose row `k` is row `p[k]` of `a`.
pub open spec fn permute_rows(a: Seq<Seq<int>>, p: Seq<usize>) -> Seq<Seq<int>> {
    Seq::new(p.len(), |k: int| a[p[k] as int])
}

/// The permutation matrix with a one at `(p[k], k)` for each `k`: multiplying
/// it by `permute_rows(a, p)` gives back `a`.
pub open spec fn perm_matrix(p: Seq<usize>, n: nat) -> Seq<Seq<int>> {
    Seq::new(n, |i: int| Seq::new(n, |k: int| if p[k] == i { 1int } else { 0int }))
}

/// The orderings of `0..n` that the search tries, in turn.
pub open spec fn row_orders(n: nat) -> Seq<Seq<usize>> {
    perms_of(range_seq(n))
}

/// Ordering `q` is the first for which the rows of `a`, so ordered, have an
/// LU decomposition.
pub open spec fn first_lu_order(a: Seq<Seq<int>>, n: nat, q: int) -> bool {
    &&& 0 <= q < row_orders(n).len()
    &&& lu_run(permute_rows(a, row_orders(n)[q]), n, n) is Some
    &&& forall|k: int|
        0 <= k < q ==> lu_run(#[trigger] permute_rows(a, row_orders(n)[k]), n, n) is None
}

/// Each ordering that the search reaches gives an elimination within `i64`.
pub open spec fn plu_fits(a: Seq<Seq<int>>, n: nat) -> bool {
    forall|q: int|
        0 <= q < row_orders(n).len() ==> (forall|k: int|
            0 <= k < q ==> lu_run(#[trigger] permute_rows(a, row_orders(n)[k]), n, n) is None)
            ==> lu_fits(#[trigger] permute_rows(a, row_orders(n)[q]), n)
}

/// Row `i` of `perm_matrix(p, n)` times column `j` of `permute_rows(a, p)`,
/// over the first `m` terms, counts the `k < m` with `p[k] == i`.
proof fn lemma_perm_row_times(a: Seq<Seq<int>>, p: Seq<usize>, n: nat, i: int, j: int, m: int)
    requires
        p.len() == n,
        n <= usize::MAX,
        0 <= i < n,
        0 <= m <= n,
    ensures
        dot_upto(perm_matrix(p, n), permute_rows(a, p), i, j, m) == count_of(
            p.subrange(0, m),
            i as usize,
        ) * a[i][j],
    decreases m,
{
    if m > 0 {
        lemma_perm_row_times(a, p, n, i, j, m - 1);
        assert(p.subrange(0, m).drop_last() =~= p.subrange(0, m - 1));
        assert(p.subrange(0, m).last() == p[m - 1]);
        let c = count_of(p.subrange(0, m - 1), i as usize) as int;
        let x = a[i][j];
        assert(perm_matrix(p, n)[i][m - 1] == if p[m - 1] == i { 1int } else { 0int });
        assert(permute_rows(a, p)[m - 1] == a[p[m - 1] as int]);
        assert((p[m - 1] == i as usize) == (p[m - 1] as int == i));
        if p[m - 1] as int == i {
            assert(c * x + 1 * x == (c + 1) * x) by (nonlinear_arith);
        } else {
            assert(c * x + 0 * a[p[m - 1] as int][j] == c * x) by (nonlinear_arith);
        }
    } else {
        assert(count_of(p.subrange(0, 0), i as usize) == 0);
    }
}

/// Multiplying by the permutation matrix of an ordering `p` of `0..n` puts
/// the rows of `permute_rows(a, p)` back in place.
pub proof fn lemma_perm_matrix_restores(a: Seq<Seq<int>>, n: nat, q: int)
    requires
        has_shape(a, n as int, n as int),
        n <= usize::MAX,
        0 <= q < row_orders(n).len(),
    ensures
        mat_mul(
            perm_matrix(row_orders(n)[q], n),
            permute_rows(a, row_orders(n)[q]),
            n as int,
            n as int,
            n as int,
        ) == a,
{
    let p = row_orders(n)[q];
    assert(all_below(range_seq(n), n));
    lemma_perms_of(range_seq(n), n);
    lemma_perms_count(range_seq(n));
    let m = mat_mul(perm_matrix(p, n), permute_rows(a, p), n as int, n as int, n as int);
    assert forall|i: int, j: int| 0 <= i < n && 0 <= j < n implies m[i][j] == a[i][j] by {
        lemma_perm_row_times(a, p, n, i, j, n as int);
        assert(p.subrange(0, n as int) =~= p);
        assert(count_of(p, i as usize) == count_of(range_seq(n), i as usize));
        lemma_count_range(n, i as usize);
        assert(1 * a[i][j] == a[i][j]);
    }
    lemma_grid_ext(m, a, n as int, n as int);
}

/// When the search finds ordering `q` and every division of its elimination
/// is exact, `P · L · U` is the matrix itself.
pub proof fn lemma_plu_product(a: Seq<Seq<int>>, n: nat, q: int)
    requires
        has_shape(a, n as int, n as int),
        n <= usize::MAX,
        first_lu_order(a, n, q),
        lu_exact(permute_rows(a, row_orders(n)[q]), n),
    ensures
        mat_mul(
            mat_mul(
                perm_matrix(row_orders(n)[q], n),
                lower_at(permute_rows(a, row_orders(n)[q]), n, n),
                n as int,
                n as int,
                n as int,
            ),
            upper_at(permute_rows(a, row_orders(n)[q]), n, n),
            n as int,
            n as int,
            n as int,
        ) == a,
{
    let p = row_orders(n)[q];
    let b = permute_rows(a, p);
    assert(all_below(range_seq(n), n));
    lemma_perms_of(range_seq(n), n);
    assert(p.len() == n && all_below(p, n));
    assert(has_shape(b, n as int, n as int)) by {
        assert forall|k: int| 0 <= k < n implies #[trigger] b[k].len() == n by {
            assert(p[k] < n);
        }
    }
    lemma_lu_product(b, n);
    lemma_perm_matrix_restores(a, n, q);
    lemma_mat_mul_assoc(perm_matrix(p, n), lower_at(b, n, n), upper_at(b, n, n), n as int);
}

/// PLU decomposition of square matrices.
pub trait PLUDecompose: Sized {
    /// The search on `self` stays within the element type.
    spec fn plu_defined(&self) -> bool;

    /// `r` is what the search on `self` yields.
    spec fn plu_matches(&self, r: Option<(Self, Self, Self)>) -> bool;

    /// Tries the orderings of the rows in turn and returns `(P, L, U)` for
    /// the first that has an LU decomposition, or `None` if none has.
    fn plu_decompose(&self) -> (r: Option<(Self, Self, Self)>)
        requires
            self.plu_defined(),
        ensures
            self.plu_matches(r),
    ;
}

impl<const T: usize> PLUDecompose for Matrix<T, T, i64> {
    open spec fn plu_defined(&self) -> bool {
        plu_fits(ints(self@), T as nat)
    }

    open spec fn plu_matches(&self, r: Option<(Self, Self, Self)>) -> bool {
        let a = ints(self@);
        let n = T as nat;
        match r {
            Some((p, l, u)) => exists|q: int|
                #[trigger] first_lu_order(a, n, q) && ints(p@) == perm_matrix(row_orders(n)[q], n)
                    && lu_run(permute_rows(a, row_orders(n)[q]), n, n) == Some(
                    (ints(l@), ints(u@)),
                ),
            None => forall|q: int|
                0 <= q < row_orders(n).len() ==> lu_run(
                    #[trigger] permute_rows(a, row_orders(n)[q]),
                    n,
                    n,
                ) is None,
        }
    }

    fn plu_decompose(&self) -> (r: Option<(Self, Self, Self)>) {
        let ghost a = ints(self@);
        let ghost n = T as nat;
        let ps = permutations_of(T);
        let ghost pss = ps.deep_view();
        proof {
            assert(all_below(range_seq(n), n));
            lemma_perms_of(range_seq(n), n);
        }
        let count = ps.len();
        let mut q: usize = 0;
        while q < count
            invariant
                count == ps@.len(),
                pss == ps.deep_view(),
                pss == row_orders(n),
                n == T,
                a == ints(self@),
                orderings_within(pss, n, n),
                plu_fits(a, n),
                0 <= q <= count,
                forall|k: int|
                    0 <= k < q ==> lu_run(#[trigger] permute_rows(a, row_orders(n)[k]), n, n) is None,
            decreases count - q,
        {
            let order = &ps[q];
            assert(order@ == pss[q as int]);
            let mut rows: Self = *self;
            let mut k: usize = 0;
            while k < T
                invariant
                    0 <= k <= T,
                    q < pss.len(),
                    order@ == pss[q as int],
                    order@.len() == T,
                    all_below(order@, n),
                    n == T,
                    forall|x: int|
                        0 <= x < k ==> #[trigger] rows@[x] == self@[order@[x] as int],
                decreases T - k,
            {
                let from = order[k];
                rows.set_row(k, self.0[from]);
                k += 1;
            }
            proof {
                rows.lemma_shape();
                assert(ints(rows@) =~= permute_rows(a, order@));
            }
            match rows.lu_decompose() {
                Some((l, u)) => {
                    let mut p: Self = Matrix::filled_with(0i64);
                    let mut k: usize = 0;
                    while k < T
                        invariant
                            0 <= k <= T,
                            q < pss.len(),
                    order@ == pss[q as int],
                            order@.len() == T,
                            all_below(order@, n),
                            n == T,
                            forall|x: int, y: int|
                                0 <= x < T && 0 <= y < T ==> #[trigger] p@[x][y] == if y < k
                                    && order@[y] == x {
                                    1i64
                                } else {
                                    0i64
                                },
                        decreases T - k,
                    {
                        let target = order[k];
                        p.set(target, k, 1);
                        k += 1;
                    }
                    proof {
                        p.lemma_shape();
                        crate::matrix::lemma_grid_ext(
                            ints(p@),
                            perm_matrix(order@, n),
                            T as int,
                            T as int,
                        );
                        assert(first_lu_order(a, n, q as int));
                    }
                    return Some((p, l, u));
                },
                None => {},
            }
            q += 1;
        }
        None
    }
}

/// Diagonalisation of square matrices: `P`, `D` and `P⁻¹` with `D`
/// diagonal and `P · D · P⁻¹` the matrix, where one exists. No element type
/// of this library implements it; it is here for callers' own types.
pub trait Diagonalise: Sized {
    /// `Some((P, D, P⁻¹))`, or `None` where no diagonalisation was found.
    fn diagonalise(&self) -> Option<(Self, Self, Self)>;
}

} // verus!
