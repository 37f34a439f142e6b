//! Polynomials with coefficients in decreasing order of power.
use vstd::prelude::*;

verus! {

/// A polynomial: `self.0[0]` is the coefficient of the highest power, the
/// last entry the constant term.
#[derive(Clone, Debug, PartialEq, Eq)]
pub struct Polynomial<L>(pub Vec<L>);

/// `s` without its leading zeros.
pub open spec fn strip_zeros(s: Seq<i64>) -> Seq<i64>
    decreases s.len(),
{
    if s.len() == 0 {
        s
    } else if s[0] == 0 {
        strip_zeros(s.drop_first())
    } else {
        s
    }
}

/// `s` padded with leading zeros to length `len` (`len >= s.len()`).
pub open spec fn aligned(s: Seq<i64>, len: int) -> Seq<int> {
    Seq::new(
        len as nat,
        |k: int| if k < len - s.len() { 0int } else { s[k - (len - s.len())] as int },
    )
}

pub open spec fn max_len(a: Seq<i64>, b: Seq<i64>) -> int {
    if a.len() >= b.len() {
        a.len() as int
    } else {
        b.len() as int
    }
}

/// The coefficients of `a + b` (if `sign == 1`) or `a - b` (if
/// `sign == -1`), aligned at the constant term, before stripping.
pub open spec fn combined(a: Seq<i64>, b: Seq<i64>, sign: int) -> Seq<int> {
    let len = max_len(a, b);
    Seq::new(len as nat, |k: int| aligned(a, len)[k] + sign * aligned(b, len)[k])
}

/// Each combined coefficient fits in an `i64`.
pub open spec fn combined_fits(a: Seq<i64>, b: Seq<i64>, sign: int) -> bool {
    forall|k: int|
        0 <= k < max_len(a, b) ==> i64::MIN <= #[trigger] combined(a, b, sign)[k] <= i64::MAX
}

pub open spec fn as_i64s(s: Seq<int>) -> Seq<i64> {
    s.map_values(|x: int| x as i64)
}

/// `Σ_{q < m} a[q] · b[k - q]` over the `q` for which `b[k - q]` exists.
pub open spec fn conv_upto(a: Seq<i64>, b: Seq<i64>, k: int, m: int) -> int
    decreases m,
{
    if m <= 0 {
        0
    } else {
        conv_upto(a, b, k, m - 1) + if 0 <= k - (m - 1) < b.len() {
            a[m - 1] * b[k - (m - 1)]
        } else {
            0
        }
    }
}

/// The coefficients of `a · b`.
pub open spec fn product_coeffs(a: Seq<i64>, b: Seq<i64>) -> Seq<int> {
    Seq::new((a.len() + b.len() - 1) as nat, |k: int| conv_upto(a, b, k, a.len() as int))
}

/// Every product and partial sum that multiplying `a` by `b` computes fits.
pub open spec fn product_fits(a: Seq<i64>, b: Seq<i64>) -> bool {
    &&& forall|p: int, q: int|
        0 <= p < a.len() && 0 <= q < b.len() ==> i64::MIN <= #[trigger] (a[p] * b[q]) <= i64::MAX
    &&& forall|k: int, m: int|
        0 <= k < a.len() + b.len() - 1 && 0 <= m <= a.len() ==> i64::MIN <= #[trigger] conv_upto(
            a,
            b,
            k,
            m,
        ) <= i64::MAX
}

proof fn lemma_strip_suffix(s: Seq<i64>, i: int)
    requires
        0 <= i <= s.len(),
        forall|k: int| 0 <= k < i ==> #[trigger] s[k] == 0,
    ensures
        strip_zeros(s) == strip_zeros(s.subrange(i, s.len() as int)),
    decreases i,
{
    if i > 0 {
        assert(s[0] == 0);
        let t = s.drop_first();
        assert forall|k: int| 0 <= k < i - 1 implies #[trigger] t[k] == 0 by {
            assert(s[k + 1] == 0);
        }
        lemma_strip_suffix(t, i - 1);
        assert(t.subrange(i - 1, t.len() as int) =~= s.subrange(i, s.len() as int));
    } else {
        assert(s.subrange(0, s.len() as int) =~= s);
    }
}

/// The vector `v` without its leading zeros.
fn strip_vec(v: &Vec<i64>) -> (r: Vec<i64>)
    ensures
        r@ == strip_zeros(v@),
{
    let mut i: usize = 0;
    while i < v.len() && v[i] == 0
        invariant
            0 <= i <= v@.len(),
            forall|k: int| 0 <= k < i ==> #[trigger] v@[k] == 0,
        decreases v@.len() - i,
    {
        i += 1;
    }
    proof {
        lemma_strip_suffix(v@, i as int);
        let t = v@.subrange(i as int, v@.len() as int);
        if t.len() > 0 {
            assert(t[0] == v@[i as int]);
        }
    }
    let mut out: Vec<i64> = Vec::new();
    let mut j: usize = i;
    while j < v.len()
        invariant
            i <= j <= v@.len(),
            out@ == v@.subrange(i as int, j as int),
        decreases v@.len() - j,
    {
        out.push(v[j]);
        j += 1;
        assert(out@ =~= v@.subrange(i as int, j as int));
    }
    out
}

impl<L: Copy> Polynomial<L> {
    /// The polynomial with these coefficients, highest power first.
    pub fn new(data: Vec<L>) -> (r: Self)
        ensures
            r.0@ == data@,
    {
        Polynomial(data)
    }
}

impl Polynomial<i64> {
    /// The same polynomial without leading zero coefficients.
    pub fn minify(&self) -> (r: Self)
        ensures
            r.0@ == strip_zeros(self.0@),
    {
        Polynomial(strip_vec(&self.0))
    }

    /// The degree: the number of coefficients after the leading zeros, less
    /// one. The zero polynomial has none.
    pub fn degree(&self) -> (r: usize)
        requires
            strip_zeros(self.0@).len() > 0,
        ensures
            r == strip_zeros(self.0@).len() - 1,
    {
        self.minify().0.len() - 1
    }

    fn combine(&self, rhs: &Self, subtract: bool) -> (r: Self)
        requires
            combined_fits(self.0@, rhs.0@, if subtract { -1int } else { 1int }),
        ensures
            r.0@ == strip_zeros(as_i64s(combined(self.0@, rhs.0@, if subtract { -1int } else { 1int }))),
    {
        let ghost sign: int = if subtract { -1int } else { 1int };
        let ghost want = combined(self.0@, rhs.0@, sign);
        let a = &self.0;
        let b = &rhs.0;
        let len = if a.len() >= b.len() { a.len() } else { b.len() };
        let pad_a = len - a.len();
        let pad_b = len - b.len();
        let mut sums: Vec<i64> = Vec::new();
        let mut k: usize = 0;
        while k < len
            invariant
                len == max_len(a@, b@),
                pad_a == len - a@.len(),
                pad_b == len - b@.len(),
                sign == if subtract { -1int } else { 1int },
                want == combined(a@, b@, sign),
                combined_fits(a@, b@, sign),
                0 <= k <= len,
                sums@ == as_i64s(want).subrange(0, k as int),
            decreases len - k,
        {
            let x: i64 = if k < pad_a { 0 } else { a[k - pad_a] };
            let y: i64 = if k < pad_b { 0 } else { b[k - pad_b] };
            assert(x == aligned(a@, len as int)[k as int]);
            assert(y == aligned(b@, len as int)[k as int]);
            assert(i64::MIN <= want[k as int] <= i64::MAX);
            let v = if subtract { x - y } else { x + y };
            sums.push(v);
            k += 1;
            assert(sums@ =~= as_i64s(want).subrange(0, k as int));
        }
        assert(sums@ =~= as_i64s(want));
        Polynomial(strip_vec(&sums))
    }

    /// Each coefficient negated.
    pub fn negated(&self) -> (r: Self)
        requires
            forall|k: int| 0 <= k < self.0@.len() ==> #[trigger] self.0@[k] != i64::MIN,
        ensures
            r.0@ == self.0@.map_values(|x: i64| (-x) as i64),
    {
        let mut out: Vec<i64> = Vec::new();
        let mut k: usize = 0;
        while k < self.0.len()
            invariant
                0 <= k <= self.0@.len(),
                forall|k: int| 0 <= k < self.0@.len() ==> #[trigger] self.0@[k] != i64::MIN,
                out@ == self.0@.map_values(|x: i64| (-x) as i64).subrange(0, k as int),
            decreases self.0@.len() - k,
        {
            out.push(-self.0[k]);
            k += 1;
            assert(out@ =~= self.0@.map_values(|x: i64| (-x) as i64).subrange(0, k as int));
        }
        assert(out@ =~= self.0@.map_values(|x: i64| (-x) as i64));
        Polynomial(out)
    }

    /// The product, without leading zeros; both factors must have a nonzero
    /// leading coefficient.
    pub fn times(&self, rhs: &Self) -> (r: Self)
        requires
            self.0@.len() > 0,
            rhs.0@.len() > 0,
            self.0@[0] != 0,
            rhs.0@[0] != 0,
            self.0@.len() + rhs.0@.len() <= usize::MAX,
            product_fits(self.0@, rhs.0@),
        ensures
            r.0@ == strip_zeros(as_i64s(product_coeffs(self.0@, rhs.0@))),
    {
        let a = &self.0;
        let b = &rhs.0;
        let n = a.len() + b.len() - 1;
        let mut out: Vec<i64> = Vec::new();
        let mut k: usize = 0;
        while k < n
            invariant
                n == a@.len() + b@.len() - 1,
                0 <= k <= n,
                out@.len() == k,
                forall|x: int| 0 <= x < k ==> #[trigger] out@[x] == 0,
            decreases n - k,
        {
            out.push(0);
            k += 1;
        }
        let mut p: usize = 0;
        while p < a.len()
            invariant
                n == a@.len() + b@.len() - 1,
                b@.len() > 0,
                product_fits(a@, b@),
                0 <= p <= a@.len(),
                out@.len() == n,
                forall|x: int| 0 <= x < n ==> #[trigger] out@[x] == conv_upto(a@, b@, x, p as int),
            decreases a@.len() - p,
        {
            let mut q: usize = 0;
            while q < b.len()
                invariant
                    n == a@.len() + b@.len() - 1,
                    product_fits(a@, b@),
                    0 <= p < a@.len(),
                    0 <= q <= b@.len(),
                    out@.len() == n,
                    forall|x: int|
                        0 <= x < n ==> #[trigger] out@[x] == conv_upto(a@, b@, x, p as int) + if p
                            <= x < p + q {
                            a@[p as int] * b@[x - p]
                        } else {
                            0
                        },
                decreases b@.len() - q,
            {
                let x = p + q;
                assert(i64::MIN <= (a@[p as int] * b@[q as int]) <= i64::MAX);
                assert(i64::MIN <= conv_upto(a@, b@, x as int, p + 1) <= i64::MAX);
                let prod = a[p] * b[q];
                let cur = out[x];
                out.set(x, cur + prod);
                q += 1;
            }
            p += 1;
        }
        assert(out@ =~= as_i64s(product_coeffs(a@, b@)));
        Polynomial(strip_vec(&out))
    }
}

impl Polynomial<i64> {
    /// Adds `rhs` in place.
    pub fn add_assign(&mut self, rhs: Self)
        requires
            combined_fits(old(self).0@, rhs.0@, 1),
        ensures
            final(self).0@ == strip_zeros(as_i64s(combined(old(self).0@, rhs.0@, 1))),
    {
        *self = self.combine(&rhs, false);
    }

    /// Subtracts `rhs` in place.
    pub fn sub_assign(&mut self, rhs: Self)
        requires
            combined_fits(old(self).0@, rhs.0@, -1),
        ensures
            final(self).0@ == strip_zeros(as_i64s(combined(old(self).0@, rhs.0@, -1))),
    {
        *self = self.combine(&rhs, true);
    }

    /// Multiplies by `rhs` in place; both must have a nonzero leading
    /// coefficient.
    pub fn mul_assign(&mut self, rhs: Self)
        requires
            old(self).0@.len() > 0,
            rhs.0@.len() > 0,
            old(self).0@[0] != 0,
            rhs.0@[0] != 0,
            old(self).0@.len() + rhs.0@.len() <= usize::MAX,
            product_fits(old(self).0@, rhs.0@),
        ensures
            final(self).0@ == strip_zeros(as_i64s(product_coeffs(old(self).0@, rhs.0@))),
    {
        *self = self.times(&rhs);
    }

    /// Adds the constant `c` in place.
    pub fn add_assign_const(&mut self, c: i64)
        requires
            combined_fits(old(self).0@, seq![c], 1),
        ensures
            final(self).0@ == strip_zeros(as_i64s(combined(old(self).0@, seq![c], 1))),
    {
        let k = Polynomial(vec![c]);
        assert(k.0@ =~= seq![c]);
        *self = self.combine(&k, false);
    }

    /// Subtracts the constant `c` in place.
    pub fn sub_assign_const(&mut self, c: i64)
        requires
            combined_fits(old(self).0@, seq![c], -1),
        ensures
            final(self).0@ == strip_zeros(as_i64s(combined(old(self).0@, seq![c], -1))),
    {
        let k = Polynomial(vec![c]);
        assert(k.0@ =~= seq![c]);
        *self = self.combine(&k, true);
    }

    /// Multiplies by the nonzero constant `c` in place.
    pub fn mul_assign_const(&mut self, c: i64)
        requires
            old(self).0@.len() > 0,
            old(self).0@[0] != 0,
            c != 0,
            old(self).0@.len() < usize::MAX,
            product_fits(old(self).0@, seq![c]),
        ensures
            final(self).0@ == strip_zeros(as_i64s(product_coeffs(old(self).0@, seq![c]))),
    {
        let k = Polynomial(vec![c]);
        assert(k.0@ =~= seq![c]);
        *self = self.times(&k);
    }
}

impl vstd::std_specs::ops::AddSpecImpl for Polynomial<i64> {
    // the result is stated on `add` itself
    open spec fn obeys_add_spec() -> bool {
        false
    }

    open spec fn add_req(self, rhs: Self) -> bool {
        combined_fits(self.0@, rhs.0@, 1)
    }

    open spec fn add_spec(self, rhs: Self) -> Self {
        self
    }
}

impl std::ops::Add for Polynomial<i64> {
    type Output = Self;

    fn add(self, rhs: Self) -> (r: Self)
        ensures
            r.0@ == strip_zeros(as_i64s(combined(self.0@, rhs.0@, 1))),
    {
        self.combine(&rhs, false)
    }
}

impl vstd::std_specs::ops::SubSpecImpl for Polynomial<i64> {
    // the result is stated on `sub` itself
    open spec fn obeys_sub_spec() -> bool {
        false
    }

    open spec fn sub_req(self, rhs: Self) -> bool {
        combined_fits(self.0@, rhs.0@, -1)
    }

    open spec fn sub_spec(self, rhs: Self) -> Self {
        self
    }
}

impl std::ops::Sub for Polynomial<i64> {
    type Output = Self;

    fn sub(self, rhs: Self) -> (r: Self)
        ensures
            r.0@ == strip_zeros(as_i64s(combined(self.0@, rhs.0@, -1))),
    {
        self.combine(&rhs, true)
    }
}

impl vstd::std_specs::ops::MulSpecImpl for Polynomial<i64> {
    // the result is stated on `mul` itself
    open spec fn obeys_mul_spec() -> bool {
        false
    }

    open spec fn mul_req(self, rhs: Self) -> bool {
        &&& self.0@.len() > 0
        &&& rhs.0@.len() > 0
        &&& self.0@[0] != 0
        &&& rhs.0@[0] != 0
        &&& self.0@.len() + rhs.0@.len() <= usize::MAX
        &&& product_fits(self.0@, rhs.0@)
    }

    open spec fn mul_spec(self, rhs: Self) -> Self {
        self
    }
}

impl std::ops::Mul for Polynomial<i64> {
    type Output = Self;

    fn mul(self, rhs: Self) -> (r: Self)
        ensures
            r.0@ == strip_zeros(as_i64s(product_coeffs(self.0@, rhs.0@))),
    {
        self.times(&rhs)
    }
}

impl vstd::std_specs::ops::NegSpecImpl for Polynomial<i64> {
    // the result is stated on `neg` itself
    open spec fn obeys_neg_spec() -> bool {
        false
    }

    open spec fn neg_req(self) -> bool {
        forall|k: int| 0 <= k < self.0@.len() ==> #[trigger] self.0@[k] != i64::MIN
    }

    open spec fn neg_spec(self) -> Self {
        self
    }
}

impl std::ops::Neg for Polynomial<i64> {
    type Output = Self;

    fn neg(self) -> (r: Self)
        ensures
            r.0@ == self.0@.map_values(|x: i64| (-x) as i64),
    {
        self.negated()
    }
}

impl vstd::std_specs::ops::AddSpecImpl<i64> for Polynomial<i64> {
    // the result is stated on `add` itself
    open spec fn obeys_add_spec() -> bool {
        false
    }

    open spec fn add_req(self, rhs: i64) -> bool {
        combined_fits(self.0@, seq![rhs], 1)
    }

    open spec fn add_spec(self, rhs: i64) -> Self {
        self
    }
}

impl std::ops::Add<i64> for Polynomial<i64> {
    type Output = Self;

    /// Adds the constant polynomial `rhs`.
    fn add(self, rhs: i64) -> (r: Self)
        ensures
            r.0@ == strip_zeros(as_i64s(combined(self.0@, seq![rhs], 1))),
    {
        let c = Polynomial(vec![rhs]);
        assert(c.0@ =~= seq![rhs]);
        self.combine(&c, false)
    }
}

impl vstd::std_specs::ops::SubSpecImpl<i64> for Polynomial<i64> {
    // the result is stated on `sub` itself
    open spec fn obeys_sub_spec() -> bool {
        false
    }

    open spec fn sub_req(self, rhs: i64) -> bool {
        combined_fits(self.0@, seq![rhs], -1)
    }

    open spec fn sub_spec(self, rhs: i64) -> Self {
        self
    }
}

impl std::ops::Sub<i64> for Polynomial<i64> {
    type Output = Self;

    /// Subtracts the constant polynomial `rhs`.
    fn sub(self, rhs: i64) -> (r: Self)
        ensures
            r.0@ == strip_zeros(as_i64s(combined(self.0@, seq![rhs], -1))),
    {
        let c = Polynomial(vec![rhs]);
        assert(c.0@ =~= seq![rhs]);
        self.combine(&c, true)
    }
}

impl vstd::std_specs::ops::MulSpecImpl<i64> for Polynomial<i64> {
    // the result is stated on `mul` itself
    open spec fn obeys_mul_spec() -> bool {
        false
    }

    open spec fn mul_req(self, rhs: i64) -> bool {
        &&& self.0@.len() > 0
        &&& self.0@[0] != 0
        &&& rhs != 0
        &&& self.0@.len() < usize::MAX
        &&& product_fits(self.0@, seq![rhs])
    }

    open spec fn mul_spec(self, rhs: i64) -> Self {
        self
    }
}

impl std::ops::Mul<i64> for Polynomial<i64> {
    type Output = Self;

    /// Multiplies by the constant polynomial `rhs`.
    fn mul(self, rhs: i64) -> (r: Self)
        ensures
            r.0@ == strip_zeros(as_i64s(product_coeffs(self.0@, seq![rhs]))),
    {
        let c = Polynomial(vec![rhs]);
        assert(c.0@ =~= seq![rhs]);
        self.times(&c)
    }
}

} // verus!
