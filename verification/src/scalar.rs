//! The numbers that vectors and matrices hold.
//!
//! The library never looks inside a scalar. It only combines scalars through
//! the operations of [`Scalar`], and every contract says which operation was
//! applied to which operands, and in which order. Nothing is assumed of an
//! implementation: an operation need not even give the same result twice, so
//! each result is described as *a* sum, *a* product and so on of its operands.
use vstd::prelude::*;

verus! {

/// A number type with the arithmetic that dense linear algebra needs.
///
/// The methods carry no contract. What a method returned is spoken of through
/// the relations below (`is_sum`, `is_product`, ...), which hold of exactly
/// the values that the implementation can return.
pub trait Scalar: Copy {
    /// The additive identity.
    fn zero() -> Self;

    /// The multiplicative identity.
    fn one() -> Self;

    /// `self + rhs`.
    fn plus(self, rhs: Self) -> Self;

    /// `self - rhs`.
    fn minus(self, rhs: Self) -> Self;

    /// `self * rhs`.
    fn times(self, rhs: Self) -> Self;

    /// `self / rhs`. A zero divisor is not an error: the implementation
    /// returns whatever its arithmetic gives.
    fn divided_by(self, rhs: Self) -> Self;

    /// The square root of `self`.
    fn square_root(self) -> Self;
}

/// A source of scalars drawn uniformly from a half-open range.
pub trait UniformSample: Copy {
    /// One sample from `[low, high)`.
    fn sample(low: Self, high: Self) -> Self;
}

/// `r` is a value that `T::zero()` can return.
pub open spec fn is_zero<T: Scalar>(r: T) -> bool {
    call_ensures(T::zero, (), r)
}

/// `r` is a value that `T::one()` can return.
pub open spec fn is_one<T: Scalar>(r: T) -> bool {
    call_ensures(T::one, (), r)
}

/// `r` is a value that `a.plus(b)` can return.
pub open spec fn is_sum<T: Scalar>(a: T, b: T, r: T) -> bool {
    call_ensures(T::plus, (a, b), r)
}

/// `r` is a value that `a.minus(b)` can return.
pub open spec fn is_difference<T: Scalar>(a: T, b: T, r: T) -> bool {
    call_ensures(T::minus, (a, b), r)
}

/// `r` is a value that `a.times(b)` can return.
pub open spec fn is_product<T: Scalar>(a: T, b: T, r: T) -> bool {
    call_ensures(T::times, (a, b), r)
}

/// `r` is a value that `a.divided_by(b)` can return.
pub open spec fn is_quotient<T: Scalar>(a: T, b: T, r: T) -> bool {
    call_ensures(T::divided_by, (a, b), r)
}

/// `r` is a value that `a.square_root()` can return.
pub open spec fn is_square_root<T: Scalar>(a: T, r: T) -> bool {
    call_ensures(T::square_root, (a,), r)
}

/// `r` is a value that `T::sample(low, high)` can return.
pub open spec fn is_sample<T: UniformSample>(low: T, high: T, r: T) -> bool {
    call_ensures(T::sample, (low, high), r)
}

/// `r` is `x - m * y`: the product is taken first, then the difference.
pub open spec fn is_reduced<T: Scalar>(x: T, m: T, y: T, r: T) -> bool {
    exists|p: T| #[trigger] is_product(m, y, p) && is_difference(x, p, r)
}

} // verus!
