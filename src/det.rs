//! Determinants by the Leibniz formula, with closed forms for sizes 1 to 3.
use vstd::prelude::*;
use itertools::Itertools;
use crate::matrix::{ints, lemma_grid_ext, transpose_of, Matrix};

verus! {

/// The sequence `0, 1, ..., n - 1`.
pub open spec fn range_seq(n: nat) -> Seq<usize> {
    Seq::new(n, |i: int| i as usize)
}

/// Every ordering of `s`, in lexicographic order of positions: all those that
/// start with `s[0]`, then all those that start with `s[1]`, and so on.
pub open spec fn perms_of(s: Seq<usize>) -> Seq<Seq<usize>>
    decreases s.len(), 1int, 0int,
{
    if s.len() == 0 {
        seq![Seq::empty()]
    } else {
        perms_from(s, 0)
    }
}

/// The orderings of `s` whose first element is `s[i]`, `s[i + 1]`, ... in turn.
pub open spec fn perms_from(s: Seq<usize>, i: int) -> Seq<Seq<usize>>
    decreases s.len(), 0int, s.len() - i,
{
    if i < 0 || i >= s.len() {
        Seq::empty()
    } else {
        perms_of(s.remove(i)).map_values(|p: Seq<usize>| seq![s[i]] + p) + perms_from(s, i + 1)
    }
}

/// The number of `k` with `i < k < end` and `p[i] > p[k]`.
pub open spec fn inversions_at(p: Seq<usize>, i: int, end: int) -> int
    decreases end - i,
{
    if end <= i + 1 {
        0
    } else {
        inversions_at(p, i, end - 1) + if p[i] > p[end - 1] { 1int } else { 0int }
    }
}

/// The number of inverted pairs `i < k`, `p[i] > p[k]`, with `i < m`.
pub open spec fn inversions_upto(p: Seq<usize>, m: int) -> int
    decreases m,
{
    if m <= 0 {
        0
    } else {
        inversions_upto(p, m - 1) + inversions_at(p, m - 1, p.len() as int)
    }
}

/// The sign of an ordering: `1` for an even number of inversions, else `-1`.
pub open spec fn perm_sign(p: Seq<usize>) -> int {
    if inversions_upto(p, p.len() as int) % 2 == 0 {
        1
    } else {
        -1
    }
}

/// `m[0][p[0]] · m[1][p[1]] · ... · m[k - 1][p[k - 1]]`.
pub open spec fn diag_product(m: Seq<Seq<i64>>, p: Seq<usize>, k: int) -> int
    decreases k,
{
    if k <= 0 {
        1
    } else {
        diag_product(m, p, k - 1) * m[k - 1][p[k - 1] as int]
    }
}

/// The sum of the first `k` Leibniz terms of the `n`×`n` grid `m`, taken
/// over the orderings `ps`.
pub open spec fn leibniz_sum(m: Seq<Seq<i64>>, n: int, ps: Seq<Seq<usize>>, k: int) -> int
    decreases k,
{
    if k <= 0 {
        0
    } else {
        leibniz_sum(m, n, ps, k - 1) + perm_sign(ps[k - 1]) * diag_product(m, ps[k - 1], n)
    }
}

/// The determinant of the `n`×`n` grid `m`: the sum over all orderings `σ`
/// of `0..n` of `sign(σ) · Π m[i][σ(i)]`.
pub open spec fn det_of(m: Seq<Seq<i64>>, n: nat) -> int {
    let ps = perms_of(range_seq(n));
    leibniz_sum(m, n as int, ps, ps.len() as int)
}

pub open spec fn factorial(n: nat) -> nat
    decreases n,
{
    if n == 0 {
        1
    } else {
        n * factorial((n - 1) as nat)
    }
}

pub open spec fn fits(x: int) -> bool {
    i64::MIN <= x <= i64::MAX
}

/// Every value that the sum over orderings of the `n`×`n` grid `m`
/// computes fits in an `i64`: each partial product, each signed term, and
/// each partial sum.
pub open spec fn leibniz_fits(m: Seq<Seq<i64>>, n: nat) -> bool {
    let ps = perms_of(range_seq(n));
    &&& forall|q: int, k: int|
        0 <= q < ps.len() && 0 <= k <= n ==> fits(#[trigger] diag_product(m, ps[q], k))
    &&& forall|q: int|
        0 <= q < ps.len() ==> fits(perm_sign(ps[q]) * diag_product(m, ps[q], n as int))
            && fits(#[trigger] leibniz_sum(m, n as int, ps, q + 1))
}

/// Every value that the 2×2 closed form computes fits in an `i64`.
pub open spec fn closed2_fits(m: Seq<Seq<i64>>) -> bool {
    fits(m[0][0] * m[1][1]) && fits(m[1][0] * m[0][1]) && fits(det2_closed(m))
}

/// Every value that the 3×3 closed form computes fits in an `i64`.
pub open spec fn closed3_fits(m: Seq<Seq<i64>>) -> bool {
    let x = m[1][1] * m[2][2] - m[2][1] * m[1][2];
    let y = m[1][0] * m[2][2] - m[2][0] * m[1][2];
    let z = m[1][0] * m[2][1] - m[2][0] * m[1][1];
    &&& fits(m[1][1] * m[2][2]) && fits(m[2][1] * m[1][2]) && fits(x)
    &&& fits(m[1][0] * m[2][2]) && fits(m[2][0] * m[1][2]) && fits(y)
    &&& fits(m[1][0] * m[2][1]) && fits(m[2][0] * m[1][1]) && fits(z)
    &&& fits(m[0][0] * x) && fits(m[0][1] * y) && fits(m[0][2] * z)
    &&& fits(m[0][0] * x - m[0][1] * y) && fits(det3_closed(m))
}

/// Every value that `determinant` computes on the `n`×`n` grid `m` fits in
/// an `i64`: those of the closed form for sizes 2 and 3, those of the sum
/// over orderings for the other sizes.
pub open spec fn det_fits(m: Seq<Seq<i64>>, n: nat) -> bool {
    if n == 1 {
        true
    } else if n == 2 {
        closed2_fits(m)
    } else if n == 3 {
        closed3_fits(m)
    } else {
        leibniz_fits(m, n)
    }
}

/// Each entry of `s` is below `n`.
pub open spec fn all_below(s: Seq<usize>, n: nat) -> bool {
    forall|k: int| 0 <= k < s.len() ==> #[trigger] s[k] < n
}

/// Each ordering in `ps` has `len` entries, all below `n`.
pub open spec fn orderings_within(ps: Seq<Seq<usize>>, len: nat, n: nat) -> bool {
    forall|q: int| 0 <= q < ps.len() ==> #[trigger] ps[q].len() == len && all_below(ps[q], n)
}

/// `s` has `|s|!` orderings, each of length `|s|` with entries taken from `s`.
pub proof fn lemma_perms_of(s: Seq<usize>, n: nat)
    requires
        all_below(s, n),
    ensures
        perms_of(s).len() == factorial(s.len()),
        orderings_within(perms_of(s), s.len(), n),
    decreases s.len(), 1int, 0int,
{
    if s.len() > 0 {
        lemma_perms_from(s, 0, n);
        assert((s.len() - 0) * factorial((s.len() - 1) as nat) == factorial(s.len()));
    }
}

pub proof fn lemma_perms_from(s: Seq<usize>, i: int, n: nat)
    requires
        all_below(s, n),
        s.len() > 0,
        0 <= i <= s.len(),
    ensures
        perms_from(s, i).len() == (s.len() - i) * factorial((s.len() - 1) as nat),
        orderings_within(perms_from(s, i), s.len(), n),
    decreases s.len(), 0int, s.len() - i,
{
    if i < s.len() {
        let r = s.remove(i);
        assert(all_below(r, n));
        lemma_perms_of(r, n);
        lemma_perms_from(s, i + 1, n);
        let a = perms_of(r).map_values(|p: Seq<usize>| seq![s[i]] + p);
        let b = perms_from(s, i + 1);
        assert(perms_from(s, i) == a + b);
        assert forall|q: int| 0 <= q < a.len() implies #[trigger] a[q].len() == s.len() && all_below(
            a[q],
            n,
        ) by {
            assert(a[q] == seq![s[i]] + perms_of(r)[q]);
            assert(all_below(perms_of(r)[q], n));
        }
        assert forall|q: int| 0 <= q < (a + b).len() implies #[trigger] (a + b)[q].len() == s.len()
            && all_below((a + b)[q], n) by {
            if q < a.len() {
                assert((a + b)[q] == a[q]);
            } else {
                assert((a + b)[q] == b[q - a.len()]);
            }
        }
        let f = factorial((s.len() - 1) as nat);
        assert(f + (s.len() - (i + 1)) * f == (s.len() - i) * f) by (nonlinear_arith);
    }
}

/// How often `x` occurs in `p`.
pub open spec fn count_of(p: Seq<usize>, x: usize) -> nat
    decreases p.len(),
{
    if p.len() == 0 {
        0
    } else {
        count_of(p.drop_last(), x) + if p.last() == x { 1nat } else { 0nat }
    }
}

proof fn lemma_count_prepend(y: usize, q: Seq<usize>, x: usize)
    ensures
        count_of(seq![y] + q, x) == count_of(q, x) + if y == x { 1nat } else { 0nat },
    decreases q.len(),
{
    if q.len() == 0 {
        assert(seq![y] + q =~= seq![y]);
        assert(seq![y].drop_last() =~= Seq::<usize>::empty());
        assert(count_of(Seq::<usize>::empty(), x) == 0);
        assert(seq![y].last() == y);
        assert(count_of(q, x) == 0);
    } else {
        assert((seq![y] + q).drop_last() =~= seq![y] + q.drop_last());
        assert((seq![y] + q).last() == q.last());
        lemma_count_prepend(y, q.drop_last(), x);
    }
}

proof fn lemma_count_remove(s: Seq<usize>, i: int, x: usize)
    requires
        0 <= i < s.len(),
    ensures
        count_of(s, x) == count_of(s.remove(i), x) + if s[i] == x { 1nat } else { 0nat },
    decreases s.len(),
{
    if i == s.len() - 1 {
        assert(s.remove(i) =~= s.drop_last());
    } else {
        assert(s.remove(i).drop_last() =~= s.drop_last().remove(i));
        assert(s.remove(i).last() == s.last());
        lemma_count_remove(s.drop_last(), i, x);
    }
}

/// Each ordering of `s` holds every value as often as `s` does.
pub proof fn lemma_perms_count(s: Seq<usize>)
    ensures
        forall|q: int, x: usize|
            0 <= q < perms_of(s).len() ==> #[trigger] count_of(perms_of(s)[q], x) == count_of(s, x),
    decreases s.len(), 1int, 0int,
{
    if s.len() == 0 {
        assert(perms_of(s) == seq![Seq::<usize>::empty()]);
        assert forall|q: int, x: usize| 0 <= q < perms_of(s).len() implies #[trigger] count_of(
            perms_of(s)[q],
            x,
        ) == count_of(s, x) by {
            assert(q == 0);
            assert(perms_of(s)[q] == Seq::<usize>::empty());
            assert(count_of(Seq::<usize>::empty(), x) == 0);
        }
    } else {
        lemma_perms_from_count(s, 0);
        assert(perms_of(s) == perms_from(s, 0));
        assert forall|q: int, x: usize| 0 <= q < perms_of(s).len() implies #[trigger] count_of(
            perms_of(s)[q],
            x,
        ) == count_of(s, x) by {
            assert(count_of(perms_from(s, 0)[q], x) == count_of(s, x));
        }
    }
}

proof fn lemma_perms_from_count(s: Seq<usize>, i: int)
    requires
        s.len() > 0,
        0 <= i <= s.len(),
    ensures
        forall|q: int, x: usize|
            0 <= q < perms_from(s, i).len() ==> #[trigger] count_of(perms_from(s, i)[q], x)
                == count_of(s, x),
    decreases s.len(), 0int, s.len() - i,
{
    if i < s.len() {
        let r = s.remove(i);
        lemma_perms_count(r);
        lemma_perms_from_count(s, i + 1);
        let a = perms_of(r).map_values(|p: Seq<usize>| seq![s[i]] + p);
        let b = perms_from(s, i + 1);
        assert(perms_from(s, i) == a + b);
        assert forall|q: int, x: usize| 0 <= q < (a + b).len() implies #[trigger] count_of(
            (a + b)[q],
            x,
        ) == count_of(s, x) by {
            if q < a.len() {
                assert((a + b)[q] == seq![s[i]] + perms_of(r)[q]);
                lemma_count_prepend(s[i], perms_of(r)[q], x);
                lemma_count_remove(s, i, x);
            } else {
                assert((a + b)[q] == b[q - a.len()]);
            }
        }
    }
}

pub proof fn lemma_count_range(n: nat, x: usize)
    requires
        n <= usize::MAX + 1,
    ensures
        count_of(range_seq(n), x) == if x < n { 1nat } else { 0nat },
    decreases n,
{
    if n > 0 {
        assert(range_seq(n).drop_last() =~= range_seq((n - 1) as nat));
        assert(range_seq(n).last() == (n - 1) as usize);
        lemma_count_range((n - 1) as nat, x);
    } else {
        assert(range_seq(n).len() == 0);
    }
}

/// Relies on itertools' `permutations`: on `0..n` with `k == n` it yields
/// each ordering of `0..n` once, in lexicographic order (for `n == 0`, the
/// one empty ordering).
#[verifier::external_body]
pub(crate) fn permutations_of(n: usize) -> (r: Vec<Vec<usize>>)
    ensures
        r.deep_view() == perms_of(range_seq(n as nat)),
{
    (0..n).permutations(n).collect()
}

/// The sign of the ordering `p`, by the parity of its inversions.
pub fn sign_of(p: &Vec<usize>) -> (r: i64)
    ensures
        r == perm_sign(p@),
{
    let len = p.len();
    let mut odd = false;
    let mut i: usize = 0;
    while i < len
        invariant
            len == p@.len(),
            0 <= i <= len,
            odd == (inversions_upto(p@, i as int) % 2 == 1),
        decreases len - i,
    {
        let mut k: usize = i + 1;
        let ghost base = inversions_upto(p@, i as int);
        while k < len
            invariant
                len == p@.len(),
                i < len,
                i + 1 <= k <= len,
                base == inversions_upto(p@, i as int),
                odd == ((base + inversions_at(p@, i as int, k as int)) % 2 == 1),
            decreases len - k,
        {
            if p[i] > p[k] {
                odd = !odd;
            }
            k += 1;
        }
        i += 1;
    }
    if odd {
        -1
    } else {
        1
    }
}

/// The Leibniz sum of the `n`×`n` grid `g`, over the orderings that
/// itertools lists.
fn leibniz(g: &Vec<Vec<i64>>, n: usize) -> (r: i64)
    requires
        g.deep_view().len() == n,
        forall|i: int| 0 <= i < n ==> (#[trigger] g.deep_view()[i]).len() == n,
        leibniz_fits(g.deep_view(), n as nat),
    ensures
        r == det_of(g.deep_view(), n as nat),
{
    let ghost m = g.deep_view();
    let ps = permutations_of(n);
    let ghost pss = ps.deep_view();
    proof {
        assert(all_below(range_seq(n as nat), n as nat));
        lemma_perms_of(range_seq(n as nat), n as nat);
    }
    let count = ps.len();
    let mut out: i64 = 0;
    let mut q: usize = 0;
    while q < count
        invariant
            m == g.deep_view(),
            m.len() == n,
            forall|i: int| 0 <= i < n ==> (#[trigger] m[i]).len() == n,
            count == ps@.len(),
            pss == ps.deep_view(),
            pss == perms_of(range_seq(n as nat)),
            orderings_within(pss, n as nat, n as nat),
            leibniz_fits(m, n as nat),
            0 <= q <= count,
            out == leibniz_sum(m, n as int, pss, q as int),
        decreases count - q,
    {
        let p = &ps[q];
        assert(p@ == pss[q as int]);
        let mut temp: i64 = 1;
        let mut r: usize = 0;
        while r < n
            invariant
                m == g.deep_view(),
                m.len() == n,
                forall|i: int| 0 <= i < n ==> (#[trigger] m[i]).len() == n,
                q < pss.len(),
                pss == perms_of(range_seq(n as nat)),
                p@ == pss[q as int],
                p@.len() == n,
                all_below(p@, n as nat),
                leibniz_fits(m, n as nat),
                0 <= r <= n,
                temp == diag_product(m, p@, r as int),
            decreases n - r,
        {
            assert(fits(diag_product(m, pss[q as int], r + 1)));
            let row = &g[r];
            assert(row@ =~= m[r as int]);
            temp = temp * row[p[r]];
            r += 1;
        }
        let sign = sign_of(p);
        proof {
            assert(fits(leibniz_sum(m, n as int, pss, q + 1)));
            assert(fits(perm_sign(pss[q as int]) * diag_product(m, pss[q as int], n as int)));
        }
        let term = sign * temp;
        out = out + term;
        q += 1;
    }
    out
}

proof fn lemma_perms_one(a: usize)
    ensures
        perms_of(seq![a]) == seq![seq![a]],
{
    let s = seq![a];
    assert(s.remove(0) =~= Seq::<usize>::empty());
    assert(perms_from(s, 1) == Seq::<Seq<usize>>::empty());
    assert(perms_of(Seq::<usize>::empty()) == seq![Seq::<usize>::empty()]);
    let t = perms_of(s.remove(0)).map_values(|p: Seq<usize>| seq![s[0]] + p);
    assert(t[0] =~= seq![a]);
    assert(t =~= seq![seq![a]]);
    assert(perms_from(s, 0) =~= seq![seq![a]]);
}

#[verifier::rlimit(40)]
proof fn lemma_perms_two(a: usize, b: usize)
    ensures
        perms_of(seq![a, b]) == seq![seq![a, b], seq![b, a]],
{
    let s = seq![a, b];
    assert(s.remove(0) =~= seq![b]);
    assert(s.remove(1) =~= seq![a]);
    lemma_perms_one(a);
    lemma_perms_one(b);
    assert(perms_from(s, 2) == Seq::<Seq<usize>>::empty());
    let t1 = perms_of(s.remove(1)).map_values(|p: Seq<usize>| seq![s[1]] + p);
    assert(t1[0] =~= seq![b, a]);
    assert(t1 =~= seq![seq![b, a]]);
    assert(perms_from(s, 1) =~= seq![seq![b, a]]);
    let t0 = perms_of(s.remove(0)).map_values(|p: Seq<usize>| seq![s[0]] + p);
    assert(t0[0] =~= seq![a, b]);
    assert(t0 =~= seq![seq![a, b]]);
    assert(perms_from(s, 0) =~= seq![seq![a, b], seq![b, a]]);
}

#[verifier::rlimit(40)]
proof fn lemma_perms_three(a: usize, b: usize, c: usize)
    ensures
        perms_of(seq![a, b, c]) == seq![
            seq![a, b, c],
            seq![a, c, b],
            seq![b, a, c],
            seq![b, c, a],
            seq![c, a, b],
            seq![c, b, a],
        ],
{
    let s = seq![a, b, c];
    assert(s.remove(0) =~= seq![b, c]);
    assert(s.remove(1) =~= seq![a, c]);
    assert(s.remove(2) =~= seq![a, b]);
    lemma_perms_two(b, c);
    lemma_perms_two(a, c);
    lemma_perms_two(a, b);
    assert(perms_from(s, 3) == Seq::<Seq<usize>>::empty());
    let t2 = perms_of(s.remove(2)).map_values(|p: Seq<usize>| seq![s[2]] + p);
    assert(t2[0] =~= seq![c, a, b]);
    assert(t2[1] =~= seq![c, b, a]);
    assert(t2 =~= seq![seq![c, a, b], seq![c, b, a]]);
    assert(perms_from(s, 2) =~= seq![seq![c, a, b], seq![c, b, a]]);
    let t1 = perms_of(s.remove(1)).map_values(|p: Seq<usize>| seq![s[1]] + p);
    assert(t1[0] =~= seq![b, a, c]);
    assert(t1[1] =~= seq![b, c, a]);
    assert(t1 =~= seq![seq![b, a, c], seq![b, c, a]]);
    assert(perms_from(s, 1) =~= seq![
        seq![b, a, c],
        seq![b, c, a],
        seq![c, a, b],
        seq![c, b, a],
    ]);
    let t0 = perms_of(s.remove(0)).map_values(|p: Seq<usize>| seq![s[0]] + p);
    assert(t0[0] =~= seq![a, b, c]);
    assert(t0[1] =~= seq![a, c, b]);
    assert(t0 =~= seq![seq![a, b, c], seq![a, c, b]]);
    assert(perms_from(s, 0) =~= seq![
        seq![a, b, c],
        seq![a, c, b],
        seq![b, a, c],
        seq![b, c, a],
        seq![c, a, b],
        seq![c, b, a],
    ]);
}

proof fn lemma_inversions_three(p: Seq<usize>)
    requires
        p.len() == 3,
    ensures
        inversions_upto(p, 3) == inversions_at(p, 0, 3) + inversions_at(p, 1, 3) + inversions_at(
            p,
            2,
            3,
        ),
        inversions_at(p, 0, 3) == (if p[0] > p[1] { 1int } else { 0 }) + (if p[0] > p[2] {
            1int
        } else {
            0
        }),
        inversions_at(p, 1, 3) == (if p[1] > p[2] { 1int } else { 0 }),
        inversions_at(p, 2, 3) == 0,
{
    assert(inversions_upto(p, 0) == 0);
    assert(inversions_upto(p, 1) == inversions_at(p, 0, 3));
    assert(inversions_upto(p, 2) == inversions_at(p, 0, 3) + inversions_at(p, 1, 3));
    assert(inversions_at(p, 0, 1) == 0);
    assert(inversions_at(p, 0, 2) == (if p[0] > p[1] { 1int } else { 0 }));
    assert(inversions_at(p, 1, 2) == 0);
}

proof fn lemma_diag_three(m: Seq<Seq<i64>>, p: Seq<usize>)
    requires
        p.len() == 3,
    ensures
        diag_product(m, p, 3) == m[0][p[0] as int] * m[1][p[1] as int] * m[2][p[2] as int],
{
    lemma_diag_one(m, p);
    assert(diag_product(m, p, 2) == diag_product(m, p, 1) * m[1][p[1] as int]);
    assert(diag_product(m, p, 3) == diag_product(m, p, 2) * m[2][p[2] as int]);
}

proof fn lemma_diag_one(m: Seq<Seq<i64>>, p: Seq<usize>)
    ensures
        diag_product(m, p, 1) == m[0][p[0] as int],
{
    let y = m[0][p[0] as int] as int;
    assert(diag_product(m, p, 0) == 1);
    assert(diag_product(m, p, 1) == diag_product(m, p, 0) * y);
    assert(1 * y == y);
}

/// The closed form of a 2×2 determinant, `ad - bc`.
pub open spec fn det2_closed(m: Seq<Seq<i64>>) -> int {
    m[0][0] * m[1][1] - m[1][0] * m[0][1]
}

/// The closed form of a 3×3 determinant, by expansion along the first row.
pub open spec fn det3_closed(m: Seq<Seq<i64>>) -> int {
    m[0][0] * (m[1][1] * m[2][2] - m[2][1] * m[1][2]) - m[0][1] * (m[1][0] * m[2][2] - m[2][0]
        * m[1][2]) + m[0][2] * (m[1][0] * m[2][1] - m[2][0] * m[1][1])
}

/// For sizes 1, 2 and 3 the closed forms equal the sum over all orderings.
pub proof fn lemma_closed_forms_match(m: Seq<Seq<i64>>)
    ensures
        det_of(m, 1) == m[0][0],
        det_of(m, 2) == det2_closed(m),
        det_of(m, 3) == det3_closed(m),
{
    assert(range_seq(1) =~= seq![0usize]);
    assert(range_seq(2) =~= seq![0usize, 1]);
    assert(range_seq(3) =~= seq![0usize, 1, 2]);
    lemma_perms_one(0);
    lemma_perms_two(0, 1);
    lemma_perms_three(0, 1, 2);
    let p = seq![0usize];
    assert(p[0] == 0);
    assert(inversions_at(p, 0, 1) == 0);
    assert(inversions_upto(p, 0) == 0);
    assert(inversions_upto(p, 1) == 0);
    lemma_diag_one(m, p);
    assert(perm_sign(p) == 1);
    assert(seq![p][0] == p);
    assert(leibniz_sum(m, 1, seq![p], 0) == 0);
    assert(leibniz_sum(m, 1, seq![p], 1) == m[0][0]);
    let p01 = seq![0usize, 1];
    let p10 = seq![1usize, 0];
    assert(p01[0] == 0 && p01[1] == 1 && p10[0] == 1 && p10[1] == 0);
    assert(inversions_at(p01, 0, 1) == 0);
    assert(inversions_at(p10, 0, 1) == 0);
    assert(inversions_at(p01, 0, 2) == 0);
    assert(inversions_at(p10, 0, 2) == 1);
    assert(inversions_at(p01, 1, 2) == 0);
    assert(inversions_at(p10, 1, 2) == 0);
    assert(inversions_upto(p01, 0) == 0);
    assert(inversions_upto(p10, 0) == 0);
    assert(inversions_upto(p01, 1) == 0);
    assert(inversions_upto(p10, 1) == 1);
    assert(inversions_upto(p01, 2) == 0);
    assert(inversions_upto(p10, 2) == 1);
    lemma_diag_one(m, p01);
    lemma_diag_one(m, p10);
    assert(diag_product(m, p01, 2) == m[0][0] * m[1][1]);
    assert(diag_product(m, p10, 2) == m[0][1] * m[1][0]);
    let ps2 = seq![p01, p10];
    assert(perm_sign(p01) == 1);
    assert(perm_sign(p10) == -1);
    assert(ps2[0] == p01 && ps2[1] == p10);
    assert(leibniz_sum(m, 2, ps2, 0) == 0);
    assert(leibniz_sum(m, 2, ps2, 1) == m[0][0] * m[1][1]);
    assert(leibniz_sum(m, 2, ps2, 2) == m[0][0] * m[1][1] - m[0][1] * m[1][0]);
    assert(m[0][1] * m[1][0] == m[1][0] * m[0][1]) by (nonlinear_arith);
    let q0 = seq![0usize, 1, 2];
    let q1 = seq![0usize, 2, 1];
    let q2 = seq![1usize, 0, 2];
    let q3 = seq![1usize, 2, 0];
    let q4 = seq![2usize, 0, 1];
    let q5 = seq![2usize, 1, 0];
    lemma_inversions_three(q0);
    lemma_inversions_three(q1);
    lemma_inversions_three(q2);
    lemma_inversions_three(q3);
    lemma_inversions_three(q4);
    lemma_inversions_three(q5);
    let a = m[0][0] as int;
    let b = m[0][1] as int;
    let c = m[0][2] as int;
    let d = m[1][0] as int;
    let e = m[1][1] as int;
    let f = m[1][2] as int;
    let g = m[2][0] as int;
    let h = m[2][1] as int;
    let i = m[2][2] as int;
    lemma_diag_three(m, q0);
    lemma_diag_three(m, q1);
    lemma_diag_three(m, q2);
    lemma_diag_three(m, q3);
    lemma_diag_three(m, q4);
    lemma_diag_three(m, q5);
    let ps3 = seq![q0, q1, q2, q3, q4, q5];
    assert(ps3[0] == q0 && ps3[1] == q1 && ps3[2] == q2 && ps3[3] == q3 && ps3[4] == q4 && ps3[5]
        == q5);
    assert(perm_sign(q0) == 1);
    assert(perm_sign(q1) == -1);
    assert(perm_sign(q2) == -1);
    assert(perm_sign(q3) == 1);
    assert(perm_sign(q4) == 1);
    assert(perm_sign(q5) == -1);
    assert(leibniz_sum(m, 3, ps3, 0) == 0);
    assert(leibniz_sum(m, 3, ps3, 1) == a * e * i);
    assert(leibniz_sum(m, 3, ps3, 2) == a * e * i - a * f * h);
    assert(leibniz_sum(m, 3, ps3, 3) == a * e * i - a * f * h - b * d * i);
    assert(leibniz_sum(m, 3, ps3, 4) == a * e * i - a * f * h - b * d * i + b * f * g);
    assert(leibniz_sum(m, 3, ps3, 5) == a * e * i - a * f * h - b * d * i + b * f * g + c * d * h);
    assert(leibniz_sum(m, 3, ps3, 6) == a * e * i - a * f * h - b * d * i + b * f * g + c * d * h
        - c * e * g);
    assert(a * (e * i - h * f) == a * e * i - a * f * h) by (nonlinear_arith);
    assert(b * (d * i - g * f) == b * d * i - b * f * g) by (nonlinear_arith);
    assert(c * (d * h - g * e) == c * d * h - c * e * g) by (nonlinear_arith);
}

impl<const T: usize> Matrix<T, T, i64> {
    /// The determinant: the closed forms for sizes 1, 2 and 3, and the sum
    /// over all orderings of `0..T` otherwise.
    pub fn determinant(&self) -> (r: i64)
        requires
            det_fits(self@, T as nat),
        ensures
            r == det_of(self@, T as nat),
    {
        proof {
            lemma_closed_forms_match(self@);
        }
        if T == 1 {
            self.0[0][0]
        } else if T == 2 {
            let m = &self.0;
            m[0][0] * m[1][1] - m[1][0] * m[0][1]
        } else if T == 3 {
            let m = &self.0;
            let x = m[1][1] * m[2][2] - m[2][1] * m[1][2];
            let y = m[1][0] * m[2][2] - m[2][0] * m[1][2];
            let z = m[1][0] * m[2][1] - m[2][0] * m[1][1];
            m[0][0] * x - m[0][1] * y + m[0][2] * z
        } else {
            let rows = self.to_rows();
            leibniz(&rows, T)
        }
    }
}

/// `m` without row `r` and column `c`, as an `(n - 1)`×`(n - 1)` grid.
pub open spec fn minor_of(m: Seq<Seq<i64>>, r: int, c: int, n: int) -> Seq<Seq<i64>> {
    Seq::new(
        (n - 1) as nat,
        |i: int|
            Seq::new(
                (n - 1) as nat,
                |j: int| m[if i < r { i } else { i + 1 }][if j < c { j } else { j + 1 }],
            ),
    )
}

/// The cofactor at `(r, c)`: `(-1)^(r + c)` times the determinant of the
/// minor.
pub open spec fn cofactor_of(m: Seq<Seq<i64>>, r: int, c: int, n: int) -> int {
    if (r + c) % 2 == 0 {
        det_of(minor_of(m, r, c, n), (n - 1) as nat)
    } else {
        -det_of(minor_of(m, r, c, n), (n - 1) as nat)
    }
}

/// The grid of all cofactors of the `n`×`n` grid `m`.
pub open spec fn cofactor_grid(m: Seq<Seq<i64>>, n: int) -> Seq<Seq<int>> {
    Seq::new(n as nat, |r: int| Seq::new(n as nat, |c: int| cofactor_of(m, r, c, n)))
}

/// The cofactor at `(r, c)` can be computed within `i64`: every value of the
/// sum over orderings of the minor fits, and so does the signed result.
pub open spec fn cofactor_fits(m: Seq<Seq<i64>>, r: int, c: int, n: int) -> bool {
    leibniz_fits(minor_of(m, r, c, n), (n - 1) as nat) && fits(cofactor_of(m, r, c, n))
}

/// Every cofactor of `m` can be computed within `i64`.
pub open spec fn cofactors_fit(m: Seq<Seq<i64>>, n: int) -> bool {
    forall|r: int, c: int| 0 <= r < n && 0 <= c < n ==> #[trigger] cofactor_fits(m, r, c, n)
}

impl<const T: usize> Matrix<T, T, i64> {
    /// The rows as vectors.
    fn to_rows(&self) -> (g: Vec<Vec<i64>>)
        ensures
            g.deep_view() == self@,
    {
        let mut g: Vec<Vec<i64>> = Vec::new();
        let mut i: usize = 0;
        while i < T
            invariant
                0 <= i <= T,
                g.deep_view() == self@.subrange(0, i as int),
            decreases T - i,
        {
            let mut row: Vec<i64> = Vec::new();
            let mut j: usize = 0;
            while j < T
                invariant
                    0 <= j <= T,
                    i < T,
                    row@ == self@[i as int].subrange(0, j as int),
                decreases T - j,
            {
                row.push(self.0[i][j]);
                j += 1;
                assert(row@ =~= self@[i as int].subrange(0, j as int));
            }
            assert(row@ =~= self@[i as int]);
            let ghost before = g.deep_view();
            assert(row.deep_view() =~= row@);
            g.push(row);
            proof {
                assert(g.deep_view() =~= before.push(row@));
            }
            i += 1;
            assert(g.deep_view() =~= self@.subrange(0, i as int));
        }
        assert(g.deep_view() =~= self@);
        g
    }

    /// The minor at `(r, c)` as rows.
    fn minor_rows(&self, r: usize, c: usize) -> (g: Vec<Vec<i64>>)
        requires
            r < T,
            c < T,
        ensures
            g.deep_view() == minor_of(self@, r as int, c as int, T as int),
    {
        let ghost want = minor_of(self@, r as int, c as int, T as int);
        let mut g: Vec<Vec<i64>> = Vec::new();
        let mut i: usize = 0;
        while i + 1 < T
            invariant
                0 <= i < T,
                r < T,
                c < T,
                want == minor_of(self@, r as int, c as int, T as int),
                g.deep_view() == want.subrange(0, i as int),
            decreases T - i,
        {
            let src = if i < r { i } else { i + 1 };
            let mut row: Vec<i64> = Vec::new();
            let mut j: usize = 0;
            while j + 1 < T
                invariant
                    0 <= j < T,
                    i + 1 < T,
                    c < T,
                    src as int == if i < r { i as int } else { i + 1 },
                    want == minor_of(self@, r as int, c as int, T as int),
                    row@ == want[i as int].subrange(0, j as int),
                decreases T - j,
            {
                let col = if j < c { j } else { j + 1 };
                row.push(self.0[src][col]);
                j += 1;
                assert(row@ =~= want[i as int].subrange(0, j as int));
            }
            assert(row@ =~= want[i as int]);
            let ghost before = g.deep_view();
            assert(row.deep_view() =~= row@);
            g.push(row);
            proof {
                assert(g.deep_view() =~= before.push(row@));
            }
            i += 1;
            assert(g.deep_view() =~= want.subrange(0, i as int));
        }
        assert(g.deep_view() =~= want);
        g
    }

    /// The cofactor at `p = (row, col)`.
    pub fn cofactor(&self, p: (usize, usize)) -> (r: i64)
        requires
            p.0 < T,
            p.1 < T,
            cofactor_fits(self@, p.0 as int, p.1 as int, T as int),
        ensures
            r == cofactor_of(self@, p.0 as int, p.1 as int, T as int),
    {
        let (row, col) = p;
        let g = self.minor_rows(row, col);
        let d = leibniz(&g, T - 1);
        proof {
            assert((((row + col) as int) % 2 == 0) == (row % 2 == col % 2));
        }
        if row % 2 == col % 2 {
            d
        } else {
            -d
        }
    }

    /// The matrix of all cofactors.
    pub fn cofactor_matrix(&self) -> (r: Self)
        requires
            cofactors_fit(self@, T as int),
        ensures
            ints(r@) == cofactor_grid(self@, T as int),
    {
        let mut out: Self = Matrix::empty();
        let mut i: usize = 0;
        while i < T
            invariant
                0 <= i <= T,
                cofactors_fit(self@, T as int),
                forall|x: int, y: int|
                    0 <= x < i && 0 <= y < T ==> #[trigger] out@[x][y] as int == cofactor_of(
                        self@,
                        x,
                        y,
                        T as int,
                    ),
            decreases T - i,
        {
            let mut j: usize = 0;
            while j < T
                invariant
                    0 <= j <= T,
                    i < T,
                    cofactors_fit(self@, T as int),
                    forall|x: int, y: int|
                        0 <= x < T && 0 <= y < T && (x < i || (x == i && y < j))
                            ==> #[trigger] out@[x][y] as int == cofactor_of(self@, x, y, T as int),
                decreases T - j,
            {
                assert(cofactor_fits(self@, i as int, j as int, T as int));
                let v = self.cofactor((i, j));
                out.set(i, j, v);
                j += 1;
            }
            i += 1;
        }
        proof {
            out.lemma_shape();
            lemma_grid_ext(ints(out@), cofactor_grid(self@, T as int), T as int, T as int);
        }
        out
    }

    /// The adjoint (adjugate): the transpose of the cofactor matrix.
    pub fn adjoint(&self) -> (r: Self)
        requires
            cofactors_fit(self@, T as int),
        ensures
            ints(r@) == transpose_of(cofactor_grid(self@, T as int), T as int, T as int),
    {
        let c = self.cofactor_matrix();
        let r = c.transpose();
        proof {
            r.lemma_shape();
            lemma_grid_ext(
                ints(r@),
                transpose_of(cofactor_grid(self@, T as int), T as int, T as int),
                T as int,
                T as int,
            );
        }
        r
    }
}

} // verus!
