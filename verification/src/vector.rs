//! Dense vectors of scalars.
use crate::row::{
    copy_slice, difference_of_rows, divided_row, dot_range, is_divided, is_dot_range,
    is_itemwise_difference, is_itemwise_sum, is_samples, is_scaled, is_zeros, sample_row,
    scaled_row, sum_of_rows, zeros,
};
use crate::scalar::{is_difference, is_product, is_square_root, Scalar, UniformSample};
use vstd::prelude::*;

verus! {

/// `r` is the Euclidean norm of `v`: the square root of the sum of
/// `v[k] * v[k]`, accumulated from zero with `k` increasing.
pub open spec fn is_magnitude<T: Scalar>(v: Seq<T>, r: T) -> bool {
    exists|s: T| #[trigger] is_dot_range(v, v, 0, v.len() as int, s) && is_square_root(s, r)
}

/// `r` is `v` with every item divided by one magnitude of `v`.
pub open spec fn is_normalization<T: Scalar>(v: Seq<T>, r: Seq<T>) -> bool {
    exists|m: T| #[trigger] is_magnitude(v, m) && is_divided(v, m, r)
}

/// `r` is `p * q - s * t`: both products are taken first, then the
/// difference.
pub open spec fn is_cross_term<T: Scalar>(p: T, q: T, s: T, t: T, r: T) -> bool {
    exists|x: T, y: T|
        #[trigger] is_product(p, q, x) && #[trigger] is_product(s, t, y) && is_difference(x, y, r)
}

/// `r` is the cross product of the vectors `a` and `b` of length 3.
pub open spec fn is_cross_product<T: Scalar>(a: Seq<T>, b: Seq<T>, r: Seq<T>) -> bool {
    &&& r.len() == 3
    &&& is_cross_term(a[1], b[2], a[2], b[1], r[0])
    &&& is_cross_term(a[2], b[0], a[0], b[2], r[1])
    &&& is_cross_term(a[0], b[1], a[1], b[0], r[2])
}

/// Computes `p * q - s * t`.
fn cross_term<T: Scalar>(p: T, q: T, s: T, t: T) -> (r: T)
    ensures
        is_cross_term(p, q, s, t, r),
{
    let x = p.times(q);
    let y = s.times(t);
    let r = x.minus(y);
    assert(is_product(p, q, x) && is_product(s, t, y));
    r
}

/// A vector of scalars, of any length.
pub struct AlgebrustVector<T> {
    vector: Vec<T>,
}

impl<T> View for AlgebrustVector<T> {
    type V = Seq<T>;

    closed spec fn view(&self) -> Seq<T> {
        self.vector@
    }
}

impl<T: Scalar> AlgebrustVector<T> {
    /// A vector with a copy of the given items.
    pub fn new(vector: &[T]) -> (r: Self)
        ensures
            r@ == vector@,
    {
        AlgebrustVector { vector: copy_slice(vector) }
    }

    /// A vector of `length` zeros.
    pub fn new_zeros(length: usize) -> (r: Self)
        ensures
            r@.len() == length,
            is_zeros(r@),
    {
        AlgebrustVector { vector: zeros(length) }
    }

    /// The number of items.
    pub fn len(&self) -> (r: usize)
        ensures
            r == self@.len(),
    {
        self.vector.len()
    }

    /// The items, as stored.
    pub fn vector_ref(&self) -> (r: &Vec<T>)
        ensures
            r@ == self@,
    {
        &self.vector
    }

    /// The itemwise sum of two vectors of the same length.
    pub fn addition(&self, other: &AlgebrustVector<T>) -> (r: AlgebrustVector<T>)
        requires
            self@.len() == other@.len(),
        ensures
            is_itemwise_sum(self@, other@, r@),
    {
        AlgebrustVector { vector: sum_of_rows(&self.vector, &other.vector) }
    }

    /// The itemwise difference of two vectors of the same length.
    pub fn subtraction(&self, other: &AlgebrustVector<T>) -> (r: AlgebrustVector<T>)
        requires
            self@.len() == other@.len(),
        ensures
            is_itemwise_difference(self@, other@, r@),
    {
        AlgebrustVector { vector: difference_of_rows(&self.vector, &other.vector) }
    }

    /// The dot product of two vectors of the same length: the sum of the
    /// itemwise products, accumulated from zero in index order.
    pub fn dot_product(&self, other: &AlgebrustVector<T>) -> (r: T)
        requires
            self@.len() == other@.len(),
        ensures
            is_dot_range(self@, other@, 0, self@.len() as int, r),
    {
        dot_range(&self.vector, &other.vector, 0, self.vector.len())
    }

    /// Every item times `scaler`.
    pub fn scalar_multiplication(&self, scaler: T) -> (r: AlgebrustVector<T>)
        ensures
            is_scaled(self@, scaler, r@),
    {
        AlgebrustVector { vector: scaled_row(&self.vector, scaler) }
    }

    /// The Euclidean norm.
    pub fn magnitude(&self) -> (r: T)
        ensures
            is_magnitude(self@, r),
    {
        let squared_sum = dot_range(&self.vector, &self.vector, 0, self.vector.len());
        squared_sum.square_root()
    }

    /// Every item divided by the magnitude. A zero magnitude is divided by
    /// like any other.
    pub fn normalization(&self) -> (r: AlgebrustVector<T>)
        ensures
            is_normalization(self@, r@),
    {
        let magnitude = self.magnitude();
        let vector = divided_row(&self.vector, magnitude);
        assert(is_magnitude(self@, magnitude));
        AlgebrustVector { vector }
    }

    /// The cross product of two vectors of length 3.
    pub fn cross_product(&self, other: &AlgebrustVector<T>) -> (r: AlgebrustVector<T>)
        requires
            self@.len() == 3,
            other@.len() == 3,
        ensures
            is_cross_product(self@, other@, r@),
    {
        let a = &self.vector;
        let b = &other.vector;
        let first = cross_term(a[1], b[2], a[2], b[1]);
        let second = cross_term(a[2], b[0], a[0], b[2]);
        let third = cross_term(a[0], b[1], a[1], b[0]);
        let mut vector: Vec<T> = Vec::new();
        vector.push(first);
        vector.push(second);
        vector.push(third);
        AlgebrustVector { vector }
    }
}

impl<T: Scalar + UniformSample> AlgebrustVector<T> {
    /// A vector of `length` items, each one sample from `[low, high)`.
    pub fn new_rand(length: usize, low: T, high: T) -> (r: Self)
        ensures
            r@.len() == length,
            is_samples(low, high, r@),
    {
        AlgebrustVector { vector: sample_row(length, low, high) }
    }
}

} // verus!
