//! Rows: sequences of scalars, and what is computed along them.
//!
//! A sum or a product over a row is described by the sequence of its partial
//! results, so that the order in which the terms were combined is part of
//! what is stated.
use crate::scalar::{
    is_difference, is_one, is_product, is_quotient, is_sample, is_sum, is_zero, Scalar,
    UniformSample,
};
use vstd::prelude::*;

verus! {

/// `r` is `a + b`, item by item.
pub open spec fn is_itemwise_sum<T: Scalar>(a: Seq<T>, b: Seq<T>, r: Seq<T>) -> bool {
    &&& r.len() == a.len()
    &&& forall|i: int| 0 <= i < a.len() ==> is_sum(a[i], b[i], #[trigger] r[i])
}

/// `r` is `a - b`, item by item.
pub open spec fn is_itemwise_difference<T: Scalar>(a: Seq<T>, b: Seq<T>, r: Seq<T>) -> bool {
    &&& r.len() == a.len()
    &&& forall|i: int| 0 <= i < a.len() ==> is_difference(a[i], b[i], #[trigger] r[i])
}

/// `r` is `a` with every item times `k`.
pub open spec fn is_scaled<T: Scalar>(a: Seq<T>, k: T, r: Seq<T>) -> bool {
    &&& r.len() == a.len()
    &&& forall|i: int| 0 <= i < a.len() ==> is_product(a[i], k, #[trigger] r[i])
}

/// `r` is `a` with every item divided by `k`.
pub open spec fn is_divided<T: Scalar>(a: Seq<T>, k: T, r: Seq<T>) -> bool {
    &&& r.len() == a.len()
    &&& forall|i: int| 0 <= i < a.len() ==> is_quotient(a[i], k, #[trigger] r[i])
}

/// Every item of `r` is a zero.
pub open spec fn is_zeros<T: Scalar>(r: Seq<T>) -> bool {
    forall|i: int| 0 <= i < r.len() ==> is_zero(#[trigger] r[i])
}

/// Every item of `r` is a sample from `[low, high)`.
pub open spec fn is_samples<T: UniformSample>(low: T, high: T, r: Seq<T>) -> bool {
    forall|i: int| 0 <= i < r.len() ==> is_sample(low, high, #[trigger] r[i])
}

/// `r` is `acc + x * y`: the product is taken first, then the sum.
pub open spec fn is_accumulated<T: Scalar>(acc: T, x: T, y: T, r: T) -> bool {
    exists|p: T| #[trigger] is_product(x, y, p) && is_sum(acc, p, r)
}

/// Entry `t + 1` of `sums` is entry `t` plus `a[lo + t] * b[lo + t]`.
pub open spec fn partial_sum_step<T: Scalar>(
    a: Seq<T>,
    b: Seq<T>,
    lo: int,
    sums: Seq<T>,
    t: int,
) -> bool {
    is_accumulated(sums[t], a[lo + t], b[lo + t], sums[t + 1])
}

/// `sums` holds the partial sums of `a[k] * b[k]` for `k` from `lo` up to
/// `hi`: it starts with a zero and each later entry adds one product, with
/// `k` increasing.
pub open spec fn is_partial_sums<T: Scalar>(
    a: Seq<T>,
    b: Seq<T>,
    lo: int,
    hi: int,
    sums: Seq<T>,
) -> bool {
    &&& sums.len() == if lo <= hi {
        hi - lo + 1
    } else {
        1
    }
    &&& is_zero(sums[0])
    &&& forall|t: int| 0 <= t < hi - lo ==> #[trigger] partial_sum_step(a, b, lo, sums, t)
}

/// `r` is the sum of `a[k] * b[k]` for `k` in `lo..hi`, accumulated from
/// zero with `k` increasing. For an empty range it is a zero.
pub open spec fn is_dot_range<T: Scalar>(a: Seq<T>, b: Seq<T>, lo: int, hi: int, r: T) -> bool {
    exists|sums: Seq<T>| #[trigger] is_partial_sums(a, b, lo, hi, sums) && sums.last() == r
}

/// Entry `t + 1` of `products` is entry `t` times `d[t]`.
pub open spec fn partial_product_step<T: Scalar>(d: Seq<T>, products: Seq<T>, t: int) -> bool {
    is_product(products[t], d[t], products[t + 1])
}

/// `products` holds the partial products of `d`: it starts with a one and
/// each later entry multiplies by the next item of `d`.
pub open spec fn is_partial_products<T: Scalar>(d: Seq<T>, products: Seq<T>) -> bool {
    &&& products.len() == d.len() + 1
    &&& is_one(products[0])
    &&& forall|t: int| 0 <= t < d.len() ==> #[trigger] partial_product_step(d, products, t)
}

/// `r` is the product of the items of `d`, accumulated from one with the
/// index increasing. For an empty `d` it is a one.
pub open spec fn is_product_of<T: Scalar>(d: Seq<T>, r: T) -> bool {
    exists|products: Seq<T>| #[trigger] is_partial_products(d, products) && products.last() == r
}

/// `r` is `(rhs - s) / pivot`, where `s` is the sum of `row[k] * x[k]` for
/// `k` in `lo..hi`: one step of solving a triangular system.
pub open spec fn is_solved_entry<T: Scalar>(
    row: Seq<T>,
    x: Seq<T>,
    lo: int,
    hi: int,
    rhs: T,
    pivot: T,
    r: T,
) -> bool {
    exists|s: T, d: T|
        #[trigger] is_dot_range(row, x, lo, hi, s) && #[trigger] is_difference(rhs, s, d)
            && is_quotient(d, pivot, r)
}

/// A sum of products over `lo..hi` reads no entry outside that range.
pub(crate) proof fn lemma_dot_range_reads<T: Scalar>(
    a: Seq<T>,
    b: Seq<T>,
    a2: Seq<T>,
    b2: Seq<T>,
    lo: int,
    hi: int,
    r: T,
)
    requires
        is_dot_range(a, b, lo, hi, r),
        forall|k: int| lo <= k < hi ==> a[k] == a2[k] && b[k] == b2[k],
    ensures
        is_dot_range(a2, b2, lo, hi, r),
{
    let sums = choose|sums: Seq<T>| #[trigger] is_partial_sums(a, b, lo, hi, sums) && sums.last() == r;
    assert forall|t: int| 0 <= t < hi - lo implies #[trigger] partial_sum_step(a2, b2, lo, sums, t) by {
        assert(partial_sum_step(a, b, lo, sums, t));
    }
    assert(is_partial_sums(a2, b2, lo, hi, sums));
}

/// A step of a triangular solve reads `x` only between `lo` and `hi`.
pub(crate) proof fn lemma_solved_entry_reads<T: Scalar>(
    row: Seq<T>,
    x: Seq<T>,
    x2: Seq<T>,
    lo: int,
    hi: int,
    rhs: T,
    pivot: T,
    r: T,
)
    requires
        is_solved_entry(row, x, lo, hi, rhs, pivot, r),
        forall|k: int| lo <= k < hi ==> x[k] == x2[k],
    ensures
        is_solved_entry(row, x2, lo, hi, rhs, pivot, r),
{
    let (s, d) = choose|s: T, d: T|
        #[trigger] is_dot_range(row, x, lo, hi, s) && #[trigger] is_difference(rhs, s, d)
            && is_quotient(d, pivot, r);
    lemma_dot_range_reads(row, x, row, x2, lo, hi, s);
    assert(is_dot_range(row, x2, lo, hi, s) && is_difference(rhs, s, d));
}

/// A row of `n` zeros.
pub(crate) fn zeros<T: Scalar>(n: usize) -> (r: Vec<T>)
    ensures
        r.len() == n,
        is_zeros(r@),
{
    let mut r: Vec<T> = Vec::new();
    let mut i: usize = 0;
    while i < n
        invariant
            i <= n,
            r.len() == i,
            forall|a: int| 0 <= a < i ==> is_zero(#[trigger] r@[a]),
        decreases n - i,
    {
        r.push(T::zero());
        i += 1;
    }
    r
}

/// A row of `n` samples from `[low, high)`, one call of the sampler each.
pub(crate) fn sample_row<T: UniformSample>(n: usize, low: T, high: T) -> (r: Vec<T>)
    ensures
        r.len() == n,
        is_samples(low, high, r@),
{
    let mut r: Vec<T> = Vec::new();
    let mut i: usize = 0;
    while i < n
        invariant
            i <= n,
            r.len() == i,
            forall|a: int| 0 <= a < i ==> is_sample(low, high, #[trigger] r@[a]),
        decreases n - i,
    {
        r.push(T::sample(low, high));
        i += 1;
    }
    r
}

/// Accumulates the sum of `a[k] * b[k]` for `k` in `lo..hi`.
pub(crate) fn dot_range<T: Scalar>(a: &Vec<T>, b: &Vec<T>, lo: usize, hi: usize) -> (r: T)
    requires
        hi <= a.len(),
        hi <= b.len(),
    ensures
        is_dot_range(a@, b@, lo as int, hi as int, r),
{
    let mut acc = T::zero();
    let ghost mut sums: Seq<T> = seq![acc];
    if hi <= lo {
        assert(is_partial_sums(a@, b@, lo as int, hi as int, sums));
        return acc;
    }
    let mut k: usize = lo;
    while k < hi
        invariant
            lo <= k <= hi,
            hi <= a.len(),
            hi <= b.len(),
            is_partial_sums(a@, b@, lo as int, k as int, sums),
            sums.last() == acc,
        decreases hi - k,
    {
        let p = a[k].times(b[k]);
        let next = acc.plus(p);
        proof {
            let grown = sums.push(next);
            assert(is_product(a@[k as int], b@[k as int], p));
            assert(partial_sum_step(a@, b@, lo as int, grown, k - lo));
            assert forall|t: int| 0 <= t < k + 1 - lo implies #[trigger] partial_sum_step(
                a@,
                b@,
                lo as int,
                grown,
                t,
            ) by {
                if t < k - lo {
                    assert(partial_sum_step(a@, b@, lo as int, sums, t));
                }
            }
            sums = grown;
        }
        acc = next;
        k += 1;
    }
    acc
}

/// Accumulates the product of the items of `d`.
pub(crate) fn product_of<T: Scalar>(d: &Vec<T>) -> (r: T)
    ensures
        is_product_of(d@, r),
{
    let mut acc = T::one();
    let ghost mut products: Seq<T> = seq![acc];
    let mut k: usize = 0;
    while k < d.len()
        invariant
            k <= d.len(),
            is_partial_products(d@.take(k as int), products),
            products.last() == acc,
        decreases d.len() - k,
    {
        let next = acc.times(d[k]);
        proof {
            let grown = products.push(next);
            let longer = d@.take(k + 1);
            assert(partial_product_step(longer, grown, k as int));
            assert forall|t: int| 0 <= t < k + 1 implies #[trigger] partial_product_step(
                longer,
                grown,
                t,
            ) by {
                if t < k {
                    assert(partial_product_step(d@.take(k as int), products, t));
                }
            }
            products = grown;
        }
        acc = next;
        k += 1;
    }
    assert(d@.take(k as int) == d@);
    acc
}

/// Copies a row.
pub(crate) fn copy_row<T: Scalar>(row: &Vec<T>) -> (r: Vec<T>)
    ensures
        r@ == row@,
{
    copy_slice(row.as_slice())
}

/// Copies a slice into a row.
pub(crate) fn copy_slice<T: Scalar>(row: &[T]) -> (r: Vec<T>)
    ensures
        r@ == row@,
{
    let mut r: Vec<T> = Vec::new();
    let mut j: usize = 0;
    while j < row.len()
        invariant
            j <= row.len(),
            r@ == row@.take(j as int),
        decreases row.len() - j,
    {
        r.push(row[j]);
        j += 1;
    }
    assert(row@.take(j as int) == row@);
    r
}

/// Adds two rows of the same length, item by item.
pub(crate) fn sum_of_rows<T: Scalar>(a: &Vec<T>, b: &Vec<T>) -> (r: Vec<T>)
    requires
        a.len() == b.len(),
    ensures
        is_itemwise_sum(a@, b@, r@),
{
    let n = a.len();
    let mut r: Vec<T> = Vec::new();
    let mut i: usize = 0;
    while i < n
        invariant
            i <= n,
            n == a.len(),
            n == b.len(),
            r.len() == i,
            forall|k: int| 0 <= k < i ==> is_sum(a@[k], b@[k], #[trigger] r@[k]),
        decreases n - i,
    {
        r.push(a[i].plus(b[i]));
        i += 1;
    }
    r
}

/// Subtracts a row from another of the same length, item by item.
pub(crate) fn difference_of_rows<T: Scalar>(a: &Vec<T>, b: &Vec<T>) -> (r: Vec<T>)
    requires
        a.len() == b.len(),
    ensures
        is_itemwise_difference(a@, b@, r@),
{
    let n = a.len();
    let mut r: Vec<T> = Vec::new();
    let mut i: usize = 0;
    while i < n
        invariant
            i <= n,
            n == a.len(),
            n == b.len(),
            r.len() == i,
            forall|k: int| 0 <= k < i ==> is_difference(a@[k], b@[k], #[trigger] r@[k]),
        decreases n - i,
    {
        r.push(a[i].minus(b[i]));
        i += 1;
    }
    r
}

/// Multiplies every item of a row by `k`.
pub(crate) fn scaled_row<T: Scalar>(a: &Vec<T>, k: T) -> (r: Vec<T>)
    ensures
        is_scaled(a@, k, r@),
{
    let n = a.len();
    let mut r: Vec<T> = Vec::new();
    let mut i: usize = 0;
    while i < n
        invariant
            i <= n,
            n == a.len(),
            r.len() == i,
            forall|j: int| 0 <= j < i ==> is_product(a@[j], k, #[trigger] r@[j]),
        decreases n - i,
    {
        r.push(a[i].times(k));
        i += 1;
    }
    r
}

/// Divides every item of a row by `k`.
pub(crate) fn divided_row<T: Scalar>(a: &Vec<T>, k: T) -> (r: Vec<T>)
    ensures
        is_divided(a@, k, r@),
{
    let n = a.len();
    let mut r: Vec<T> = Vec::new();
    let mut i: usize = 0;
    while i < n
        invariant
            i <= n,
            n == a.len(),
            r.len() == i,
            forall|j: int| 0 <= j < i ==> is_quotient(a@[j], k, #[trigger] r@[j]),
        decreases n - i,
    {
        r.push(a[i].divided_by(k));
        i += 1;
    }
    r
}

/// Adding `y` to `x` and taking `y` away again gives `x` back, whatever the
/// sum and the difference come to.
pub open spec fn cancels<T: Scalar>(x: T, y: T) -> bool {
    forall|s: T, d: T| #[trigger] is_sum(x, y, s) && #[trigger] is_difference(s, y, d) ==> d == x
}

/// Every product of `x` and `y` is a product of `y` and `x`.
pub open spec fn commutes<T: Scalar>(x: T, y: T) -> bool {
    forall|p: T| #[trigger] is_product(x, y, p) ==> is_product(y, x, p)
}

/// Subtraction undoes addition: where the items cancel, `(a + b) - b` is `a`.
///
/// Rounding arithmetic does not cancel on all items, so the items on which
/// it does are named in the precondition.
pub proof fn law_subtraction_undoes_addition<T: Scalar>(
    a: Seq<T>,
    b: Seq<T>,
    sum: Seq<T>,
    back: Seq<T>,
)
    requires
        a.len() == b.len(),
        forall|i: int| 0 <= i < a.len() ==> cancels(#[trigger] a[i], b[i]),
        is_itemwise_sum(a, b, sum),
        is_itemwise_difference(sum, b, back),
    ensures
        back == a,
{
    assert forall|i: int| 0 <= i < a.len() implies back[i] == a[i] by {
        assert(cancels(a[i], b[i]));
        assert(is_sum(a[i], b[i], sum[i]));
        assert(is_difference(sum[i], b[i], back[i]));
    }
    assert(back =~= a);
}

/// The dot product is commutative: where the products of the items commute,
/// every value of `a . b` is a value of `b . a`.
pub proof fn law_dot_product_commutes<T: Scalar>(a: Seq<T>, b: Seq<T>, r: T)
    requires
        a.len() == b.len(),
        forall|i: int| 0 <= i < a.len() ==> commutes(#[trigger] a[i], b[i]),
        is_dot_range(a, b, 0, a.len() as int, r),
    ensures
        is_dot_range(b, a, 0, a.len() as int, r),
{
    let n = a.len() as int;
    let sums = choose|sums: Seq<T>| #[trigger] is_partial_sums(a, b, 0, n, sums) && sums.last() == r;
    assert forall|t: int| 0 <= t < n implies #[trigger] partial_sum_step(b, a, 0, sums, t) by {
        assert(partial_sum_step(a, b, 0, sums, t));
        let p = choose|p: T| #[trigger] is_product(a[t], b[t], p) && is_sum(sums[t], p, sums[t + 1]);
        assert(commutes(a[t], b[t]));
        assert(is_product(b[t], a[t], p));
    }
    assert(is_partial_sums(b, a, 0, n, sums));
}

} // verus!
