//! The capabilities that element types provide to the matrix code.
use vstd::prelude::*;
use num_integer::Roots;

verus! {

/// An element type with an additive and a multiplicative identity.
pub trait Element: Copy + Sized {
    spec fn spec_zero() -> Self;

    spec fn spec_one() -> Self;

    /// The additive identity.
    fn zero() -> (r: Self)
        ensures
            r == Self::spec_zero(),
    ;

    /// The multiplicative identity.
    fn one() -> (r: Self)
        ensures
            r == Self::spec_one(),
    ;
}

impl Element for i64 {
    open spec fn spec_zero() -> i64 {
        0
    }

    open spec fn spec_one() -> i64 {
        1
    }

    fn zero() -> (r: i64) {
        0
    }

    fn one() -> (r: i64) {
        1
    }
}

/// The absolute value, implemented for the built-in integer types.
pub trait Abs: Sized {
    /// The argument has an absolute value of its own type.
    spec fn abs_defined(&self) -> bool;

    spec fn spec_abs(&self) -> Self;

    /// The absolute value of `self`; for unsigned types, `self` itself.
    fn absolute(&self) -> (r: Self)
        requires
            self.abs_defined(),
        ensures
            r == self.spec_abs(),
    ;
}

impl Abs for i64 {
    open spec fn abs_defined(&self) -> bool {
        *self != i64::MIN
    }

    open spec fn spec_abs(&self) -> i64 {
        if *self < 0 {
            (-*self) as i64
        } else {
            *self
        }
    }

    fn absolute(&self) -> (r: i64) {
        if *self < 0 {
            -*self
        } else {
            *self
        }
    }
}

/// `b` raised to the power `e`.
pub open spec fn int_pow(b: int, e: nat) -> int
    decreases e,
{
    if e == 0 {
        1
    } else {
        b * int_pow(b, (e - 1) as nat)
    }
}

/// `r` is the `n`-th root of `x` rounded toward zero: for `x >= 0`,
/// `r^n <= x < (r + 1)^n`; for negative `x` (odd `n`), `(r - 1)^n < x <= r^n`.
pub open spec fn is_nth_root(x: int, n: nat, r: int) -> bool {
    if x >= 0 {
        0 <= r && int_pow(r, n) <= x < int_pow(r + 1, n)
    } else {
        r <= 0 && int_pow(r - 1, n) < x <= int_pow(r, n)
    }
}

/// Relies on num-integer's `Roots::nth_root` for `i64`: the `n`-th root
/// rounded toward zero. It panics for `n == 0`, for an even root of a
/// negative number, and for the first root of `i64::MIN` (whose negation it
/// takes), which `requires` leaves out.
#[verifier::external_body]
fn nth_root_i64(x: i64, n: u32) -> (r: i64)
    requires
        n >= 1,
        x >= 0 || n % 2 == 1,
        x != i64::MIN || n != 1,
    ensures
        is_nth_root(x as int, n as nat, r as int),
{
    x.nth_root(n)
}

/// Integer powers and roots.
pub trait Pows: Sized {
    spec fn power_defined(&self, p: Self) -> bool;

    spec fn spec_power(&self, p: Self) -> Self;

    spec fn root_defined(&self, p: Self) -> bool;

    /// `r` is the `p`-th root of `self`.
    spec fn is_root(&self, p: Self, r: Self) -> bool;

    /// `self` raised to the power `p`.
    fn power(&self, p: Self) -> (r: Self)
        requires
            self.power_defined(p),
        ensures
            r == self.spec_power(p),
    ;

    /// The `p`-th root of `self`.
    fn root_n(&self, p: Self) -> (r: Self)
        requires
            self.root_defined(p),
        ensures
            self.is_root(p, r),
    ;
}

impl Pows for i64 {
    /// A non-negative exponent, with every partial power within `i64`.
    open spec fn power_defined(&self, p: i64) -> bool {
        &&& 0 <= p
        &&& forall|k: nat| k <= p ==> i64::MIN <= #[trigger] int_pow(*self as int, k) <= i64::MAX
    }

    open spec fn spec_power(&self, p: i64) -> i64 {
        int_pow(*self as int, p as nat) as i64
    }

    /// A root of positive degree within `u32`, no even root of a negative
    /// number, and not the first root of `i64::MIN`.
    open spec fn root_defined(&self, p: i64) -> bool {
        1 <= p <= u32::MAX && (*self >= 0 || p % 2 == 1) && (*self != i64::MIN || p != 1)
    }

    open spec fn is_root(&self, p: i64, r: i64) -> bool {
        is_nth_root(*self as int, p as nat, r as int)
    }

    fn power(&self, p: i64) -> (r: i64) {
        let mut acc: i64 = 1;
        let mut k: i64 = 0;
        while k < p
            invariant
                0 <= k <= p,
                self.power_defined(p),
                acc == int_pow(*self as int, k as nat),
            decreases p - k,
        {
            proof {
                assert(i64::MIN <= int_pow(*self as int, (k + 1) as nat) <= i64::MAX);
                assert(int_pow(*self as int, (k + 1) as nat) == *self * int_pow(*self as int, k as nat));
            }
            acc = *self * acc;
            k += 1;
        }
        acc
    }

    fn root_n(&self, p: i64) -> (r: i64) {
        nth_root_i64(*self, p as u32)
    }
}

/// Filtering out values too small to tell from rounding noise.
pub trait Epsilon: Sized {
    spec fn spec_epsilon(&self) -> Self;

    /// Zero when `self` is below the type's machine epsilon in size, else
    /// `self`.
    fn epsilon(&self) -> (r: Self)
        ensures
            r == self.spec_epsilon(),
    ;
}

/// Trigonometric functions, for floating-point element types.
pub trait Trig: Sized {
    /// The cosine of `self`.
    fn cos(&self) -> Self;

    /// The sine of `self`.
    fn sin(&self) -> Self;

    /// The tangent of `self`.
    fn tan(&self) -> Self;

    /// The inverse cosine of `self`.
    fn arccos(&self) -> Self;

    /// The inverse sine of `self`.
    fn arcsin(&self) -> Self;

    /// The inverse tangent of `self`.
    fn arctan(&self) -> Self;
}

} // verus!
