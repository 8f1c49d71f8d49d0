//! What the library computes when the arithmetic of the scalars is exact.
//!
//! The contracts of the library hold of any scalars, rounding ones too. The
//! laws here add the assumption that nothing rounds, stated through a
//! function that reads each scalar as a real number, and conclude what
//! linear algebra promises of the results: that a decomposition multiplies
//! back to the matrix, that an inverse is an inverse, that a determinant is
//! the product of the pivots, and that a normalized vector has length one.
use crate::decomposition::{
    backward_row_holds, column_solved, forward_row_holds, is_backward_solution, is_determinant,
    is_eliminated_row, is_elimination, is_forward_solution, is_inverse, is_lu_decomposition,
    is_unit_lower, round_holds,
};
use crate::matrix::{column, diagonal, has_shape, is_identity, is_matrix_product};
use crate::row::{
    is_divided, is_dot_range, is_itemwise_difference, is_itemwise_sum, is_partial_products,
    is_partial_sums, is_product_of, partial_product_step, partial_sum_step,
};
use crate::scalar::{
    is_difference, is_one, is_product, is_quotient, is_reduced, is_square_root, is_sum, is_zero,
    Scalar,
};
use crate::vector::{is_magnitude, is_normalization};
use vstd::prelude::*;

verus! {

/// Under `value` every scalar stands for a real number, and the arithmetic
/// of the scalars is the arithmetic of those numbers: nothing rounds, and a
/// quotient by a divisor other than zero is exact.
pub open spec fn is_exact<T: Scalar>(value: spec_fn(T) -> real) -> bool {
    &&& forall|r: T| #[trigger] is_zero(r) ==> value(r) == 0real
    &&& forall|r: T| #[trigger] is_one(r) ==> value(r) == 1real
    &&& forall|a: T, b: T, r: T| #[trigger] is_sum(a, b, r) ==> value(r) == value(a) + value(b)
    &&& forall|a: T, b: T, r: T|
        #[trigger] is_difference(a, b, r) ==> value(r) == value(a) - value(b)
    &&& forall|a: T, b: T, r: T|
        #[trigger] is_product(a, b, r) ==> value(r) == value(a) * value(b)
    &&& forall|a: T, b: T, r: T|
        #[trigger] is_quotient(a, b, r) && value(b) != 0real ==> value(r) * value(b) == value(a)
}

/// Under `value` square roots are exact: a root of a number that is not
/// negative is not negative, and its square is that number.
pub open spec fn has_exact_roots<T: Scalar>(value: spec_fn(T) -> real) -> bool {
    forall|a: T, r: T|
        #[trigger] is_square_root(a, r) && value(a) >= 0real ==> value(r) >= 0real && value(r)
            * value(r) == value(a)
}

/// The sum of `value(a[k]) * value(b[k])` for `k` in `lo..hi`.
pub open spec fn exact_dot<T>(
    value: spec_fn(T) -> real,
    a: Seq<T>,
    b: Seq<T>,
    lo: int,
    hi: int,
) -> real
    decreases hi - lo,
{
    if hi <= lo {
        0real
    } else {
        exact_dot(value, a, b, lo, hi - 1) + value(a[hi - 1]) * value(b[hi - 1])
    }
}

/// Partial sum `t` stands for the exact sum of the first `t` products.
proof fn lemma_partial_sums_value<T: Scalar>(
    value: spec_fn(T) -> real,
    a: Seq<T>,
    b: Seq<T>,
    lo: int,
    hi: int,
    sums: Seq<T>,
    t: int,
)
    requires
        is_exact(value),
        is_partial_sums(a, b, lo, hi, sums),
        0 <= t,
        t <= hi - lo,
    ensures
        value(sums[t]) == exact_dot(value, a, b, lo, lo + t),
    decreases t,
{
    if t > 0 {
        lemma_partial_sums_value(value, a, b, lo, hi, sums, t - 1);
        assert(partial_sum_step(a, b, lo, sums, t - 1));
        let p = choose|p: T| #[trigger]
            is_product(a[lo + (t - 1)], b[lo + (t - 1)], p) && is_sum(sums[t - 1], p, sums[t - 1 + 1]);
        assert(value(p) == value(a[lo + t - 1]) * value(b[lo + t - 1]));
        assert(value(sums[t]) == value(sums[t - 1]) + value(p));
    }
}

/// With exact arithmetic, a sum of products stands for the exact sum.
pub proof fn lemma_dot_range_value<T: Scalar>(
    value: spec_fn(T) -> real,
    a: Seq<T>,
    b: Seq<T>,
    lo: int,
    hi: int,
    r: T,
)
    requires
        is_exact(value),
        is_dot_range(a, b, lo, hi, r),
    ensures
        value(r) == exact_dot(value, a, b, lo, hi),
{
    let sums = choose|sums: Seq<T>| #[trigger] is_partial_sums(a, b, lo, hi, sums) && sums.last() == r;
    if lo <= hi {
        lemma_partial_sums_value(value, a, b, lo, hi, sums, hi - lo);
    } else {
        assert(is_zero(sums[0]));
    }
}

/// A sum of products does not grow where the left factors stand for zero.
proof fn lemma_exact_dot_zero_tail<T: Scalar>(
    value: spec_fn(T) -> real,
    a: Seq<T>,
    b: Seq<T>,
    mid: int,
    hi: int,
)
    requires
        0 <= mid <= hi,
        forall|k: int| mid <= k < hi ==> value(#[trigger] a[k]) == 0real,
    ensures
        exact_dot(value, a, b, 0, hi) == exact_dot(value, a, b, 0, mid),
    decreases hi - mid,
{
    if mid < hi {
        lemma_exact_dot_zero_tail(value, a, b, mid, hi - 1);
        assert(value(a[hi - 1]) == 0real);
        assert(value(a[hi - 1]) * value(b[hi - 1]) == 0real) by (nonlinear_arith)
            requires
                value(a[hi - 1]) == 0real,
        ;
    }
}

/// Every stage of an elimination on an `n` by `n` matrix is `n` by `n`.
proof fn lemma_stage_shape<T: Scalar>(
    a: Seq<Seq<T>>,
    l: Seq<Seq<T>>,
    stages: Seq<Seq<Seq<T>>>,
    t: int,
)
    requires
        has_shape(a, a.len() as int, a.len() as int),
        is_elimination(a, l, stages),
        0 <= t <= a.len(),
    ensures
        has_shape(stages[t], a.len() as int, a.len() as int),
    decreases t,
{
    if t > 0 {
        lemma_stage_shape(a, l, stages, t - 1);
        assert(round_holds(stages, t - 1, l));
        let before = stages[t - 1];
        let after = stages[t];
        assert forall|i: int| 0 <= i < a.len() implies (#[trigger] after[i]).len() == a.len() by {
            if i <= t - 1 {
                assert(after[i] == before[i]);
            } else {
                assert(is_eliminated_row(before[i], before[t - 1], t - 1, l[i][t - 1], after[i]));
            }
        }
    }
}

/// Every stage of an elimination has as many rows as the matrix.
proof fn lemma_stage_rows<T: Scalar>(
    a: Seq<Seq<T>>,
    l: Seq<Seq<T>>,
    stages: Seq<Seq<Seq<T>>>,
    t: int,
)
    requires
        is_elimination(a, l, stages),
        0 <= t <= a.len(),
    ensures
        stages[t].len() == a.len(),
    decreases t,
{
    if t > 0 {
        lemma_stage_rows(a, l, stages, t - 1);
        assert(round_holds(stages, t - 1, l));
    }
}

/// Row `k` is not changed after stage `k`.
proof fn lemma_row_final<T: Scalar>(
    a: Seq<Seq<T>>,
    l: Seq<Seq<T>>,
    stages: Seq<Seq<Seq<T>>>,
    k: int,
    t: int,
)
    requires
        is_elimination(a, l, stages),
        0 <= k <= t <= a.len(),
        k < a.len(),
    ensures
        stages[t][k] == stages[a.len() as int][k],
    decreases a.len() - t,
{
    if t < a.len() {
        lemma_row_final(a, l, stages, k, t + 1);
        lemma_stage_rows(a, l, stages, t);
        assert(round_holds(stages, t, l));
        assert(stages[t + 1][k] == stages[t][k]);
    }
}

/// What elimination has reached at stage `t`: each entry of `a` is the
/// entry of the stage plus the products of the multipliers so far with the
/// finished rows, and the stage stands for zero below the diagonal in its
/// first `t` columns.
pub open spec fn elimination_invariant<T: Scalar>(
    value: spec_fn(T) -> real,
    a: Seq<Seq<T>>,
    l: Seq<Seq<T>>,
    u: Seq<Seq<T>>,
    stage: Seq<Seq<T>>,
    t: int,
) -> bool {
    &&& forall|i: int, c: int|
        0 <= i < a.len() && 0 <= c < a.len() ==> value(a[i][c]) == exact_dot(
            value,
            l[i],
            column(u, c),
            0,
            if i < t {
                i
            } else {
                t
            },
        ) + value(#[trigger] stage[i][c])
    &&& forall|i: int, c: int|
        0 <= c < t && c < i < a.len() ==> value(#[trigger] stage[i][c]) == 0real
}

/// With exact arithmetic and pivots other than zero, the invariant holds at
/// every stage.
proof fn lemma_elimination_invariant<T: Scalar>(
    value: spec_fn(T) -> real,
    a: Seq<Seq<T>>,
    l: Seq<Seq<T>>,
    stages: Seq<Seq<Seq<T>>>,
    t: int,
)
    requires
        is_exact(value),
        has_shape(a, a.len() as int, a.len() as int),
        is_elimination(a, l, stages),
        0 <= t <= a.len(),
        forall|j: int| 0 <= j && j + 1 < a.len() ==> value(#[trigger] stages.last()[j][j]) != 0real,
    ensures
        elimination_invariant(value, a, l, stages.last(), stages[t], t),
    decreases t,
{
    let n = a.len() as int;
    let u = stages.last();
    if t > 0 {
        let j = t - 1;
        lemma_elimination_invariant(value, a, l, stages, j);
        lemma_stage_shape(a, l, stages, j);
        lemma_stage_shape(a, l, stages, t);
        lemma_stage_shape(a, l, stages, n);
        lemma_row_final(a, l, stages, j, j);
        assert(round_holds(stages, j, l));
        let before = stages[j];
        let after = stages[t];
        assert(before[j] == u[j]);
        assert forall|i: int, c: int| 0 <= i < n && 0 <= c < n implies value(a[i][c]) == exact_dot(
            value,
            l[i],
            column(u, c),
            0,
            if i < t {
                i
            } else {
                t
            },
        ) + value(#[trigger] after[i][c]) && (c < t && c < i ==> value(after[i][c]) == 0real) by {
            assert(value(a[i][c]) == exact_dot(
                value,
                l[i],
                column(u, c),
                0,
                if i < j {
                    i
                } else {
                    j
                },
            ) + value(before[i][c]));
            if i <= j {
                assert(after[i] == before[i]);
                if c < t && c < i {
                    assert(value(before[i][c]) == 0real);
                }
            } else {
                let m = l[i][j];
                assert(is_eliminated_row(before[i], before[j], j, m, after[i]));
                assert(column(u, c)[j] == before[j][c]);
                assert(exact_dot(value, l[i], column(u, c), 0, t) == exact_dot(
                    value,
                    l[i],
                    column(u, c),
                    0,
                    j,
                ) + value(m) * value(before[j][c]));
                if c < j {
                    assert(after[i][c] == before[i][c]);
                    assert(value(before[j][c]) == 0real);
                    assert(value(before[i][c]) == 0real);
                    assert(value(m) * value(before[j][c]) == 0real) by (nonlinear_arith)
                        requires
                            value(before[j][c]) == 0real,
                    ;
                } else {
                    assert(is_reduced(before[i][c], m, before[j][c], after[i][c]));
                    let p = choose|p: T| #[trigger]
                        is_product(m, before[j][c], p) && is_difference(before[i][c], p, after[i][c]);
                    assert(value(p) == value(m) * value(before[j][c]));
                    assert(value(after[i][c]) == value(before[i][c]) - value(p));
                    if c == j {
                        assert(value(u[j][j]) != 0real);
                        assert(is_quotient(before[i][j], before[j][j], m));
                        assert(value(m) * value(before[j][j]) == value(before[i][j]));
                    }
                }
            }
        }
    } else {
        assert(stages[0] == a);
    }
}

/// With exact arithmetic and pivots other than zero, each entry of `a` is
/// the exact dot product of a row of `l` with a column of `u`, and `u`
/// stands for zero below its diagonal.
proof fn lemma_decomposition_value<T: Scalar>(
    value: spec_fn(T) -> real,
    a: Seq<Seq<T>>,
    l: Seq<Seq<T>>,
    u: Seq<Seq<T>>,
)
    requires
        is_exact(value),
        has_shape(a, a.len() as int, a.len() as int),
        is_lu_decomposition(a, l, u),
        forall|j: int| 0 <= j && j + 1 < a.len() ==> value(#[trigger] u[j][j]) != 0real,
    ensures
        forall|i: int, c: int|
            #![trigger a[i][c]]
            0 <= i < a.len() && 0 <= c < a.len() ==> value(a[i][c]) == exact_dot(
                value,
                l[i],
                column(u, c),
                0,
                a.len() as int,
            ),
        forall|i: int, c: int| 0 <= c < i < a.len() ==> value(#[trigger] u[i][c]) == 0real,
{
    let n = a.len() as int;
    let stages = choose|stages: Seq<Seq<Seq<T>>>| #[trigger]
        is_elimination(a, l, stages) && stages.last() == u;
    lemma_elimination_invariant(value, a, l, stages, n);
    lemma_stage_shape(a, l, stages, n);
    assert(elimination_invariant(value, a, l, u, u, n));
    assert forall|i: int, c: int| 0 <= c < i < n implies value(#[trigger] u[i][c]) == 0real by {}
    assert forall|i: int, c: int|
        #![trigger a[i][c]]
        0 <= i < n && 0 <= c < n implies value(a[i][c]) == exact_dot(
        value,
        l[i],
        column(u, c),
        0,
        n,
    ) by {
        let col = column(u, c);
        assert forall|k: int| i + 1 <= k < n implies value(#[trigger] l[i][k]) == 0real by {
            assert(is_zero(l[i][k]));
        }
        lemma_exact_dot_zero_tail(value, l[i], col, i + 1, n);
        assert(is_one(l[i][i]));
        assert(col[i] == u[i][c]);
        assert(exact_dot(value, l[i], col, 0, i + 1) == exact_dot(value, l[i], col, 0, i) + value(
            l[i][i],
        ) * value(col[i]));
        assert(value(a[i][c]) == exact_dot(value, l[i], col, 0, i) + value(u[i][c]));
    }
}

/// Decomposition reconstructs the matrix: with exact arithmetic and pivots
/// other than zero, the product of `L` and `U` stands for `A` entry by
/// entry, and `U` stands for zero below its diagonal.
///
/// The pivots are the diagonal entries of `U`; the last one is never
/// divided by and may be zero.
pub proof fn law_decomposition_reconstructs<T: Scalar>(
    value: spec_fn(T) -> real,
    a: Seq<Seq<T>>,
    l: Seq<Seq<T>>,
    u: Seq<Seq<T>>,
    product: Seq<Seq<T>>,
)
    requires
        is_exact(value),
        has_shape(a, a.len() as int, a.len() as int),
        is_lu_decomposition(a, l, u),
        forall|j: int| 0 <= j && j + 1 < a.len() ==> value(#[trigger] u[j][j]) != 0real,
        has_shape(product, a.len() as int, a.len() as int),
        is_matrix_product(l, u, product),
    ensures
        forall|i: int, c: int|
            0 <= i < a.len() && 0 <= c < a.len() ==> value(#[trigger] product[i][c]) == value(
                a[i][c],
            ),
        forall|i: int, c: int| 0 <= c < i < a.len() ==> value(#[trigger] u[i][c]) == 0real,
{
    let n = a.len() as int;
    lemma_decomposition_value(value, a, l, u);
    assert forall|i: int, c: int| 0 <= i < n && 0 <= c < n implies value(#[trigger] product[i][c])
        == value(a[i][c]) by {
        assert(product[i].len() == n);
        lemma_dot_range_value(value, l[i], column(u, c), 0, n, product[i][c]);
        assert(value(a[i][c]) == exact_dot(value, l[i], column(u, c), 0, n));
    }
}

/// Subtraction undoes addition: with exact arithmetic, `(a + b) - b`
/// stands for `a`, item by item.
pub proof fn law_exact_subtraction_undoes_addition<T: Scalar>(
    value: spec_fn(T) -> real,
    a: Seq<T>,
    b: Seq<T>,
    sum: Seq<T>,
    back: Seq<T>,
)
    requires
        is_exact(value),
        a.len() == b.len(),
        is_itemwise_sum(a, b, sum),
        is_itemwise_difference(sum, b, back),
    ensures
        back.len() == a.len(),
        forall|i: int| 0 <= i < a.len() ==> value(#[trigger] back[i]) == value(a[i]),
{
    assert forall|i: int| 0 <= i < a.len() implies value(#[trigger] back[i]) == value(a[i]) by {
        assert(is_sum(a[i], b[i], sum[i]));
        assert(is_difference(sum[i], b[i], back[i]));
    }
}

/// The exact sum of products does not depend on the order of the factors.
proof fn lemma_exact_dot_commutes<T>(
    value: spec_fn(T) -> real,
    a: Seq<T>,
    b: Seq<T>,
    lo: int,
    hi: int,
)
    ensures
        exact_dot(value, a, b, lo, hi) == exact_dot(value, b, a, lo, hi),
    decreases hi - lo,
{
    if lo < hi {
        lemma_exact_dot_commutes(value, a, b, lo, hi - 1);
        assert(value(a[hi - 1]) * value(b[hi - 1]) == value(b[hi - 1]) * value(a[hi - 1]))
            by (nonlinear_arith);
    }
}

/// The dot product is commutative: with exact arithmetic, `a . b` and
/// `b . a` stand for the same number.
pub proof fn law_exact_dot_product_commutes<T: Scalar>(
    value: spec_fn(T) -> real,
    a: Seq<T>,
    b: Seq<T>,
    ab: T,
    ba: T,
)
    requires
        is_exact(value),
        a.len() == b.len(),
        is_dot_range(a, b, 0, a.len() as int, ab),
        is_dot_range(b, a, 0, b.len() as int, ba),
    ensures
        value(ab) == value(ba),
{
    lemma_dot_range_value(value, a, b, 0, a.len() as int, ab);
    lemma_dot_range_value(value, b, a, 0, a.len() as int, ba);
    lemma_exact_dot_commutes(value, a, b, 0, a.len() as int);
}

/// A sum of squares is not negative, and it is zero only where every item
/// stands for zero.
proof fn lemma_sum_of_squares<T>(value: spec_fn(T) -> real, v: Seq<T>, hi: int)
    requires
        0 <= hi <= v.len(),
    ensures
        exact_dot(value, v, v, 0, hi) >= 0real,
        exact_dot(value, v, v, 0, hi) == 0real ==> forall|i: int|
            0 <= i < hi ==> value(#[trigger] v[i]) == 0real,
    decreases hi,
{
    if hi > 0 {
        lemma_sum_of_squares(value, v, hi - 1);
        let x = value(v[hi - 1]);
        assert(x * x >= 0real && (x * x == 0real ==> x == 0real)) by (nonlinear_arith);
    }
}

/// Dividing every item by `m` divides the sum of squares by `m * m`.
proof fn lemma_divided_sum_of_squares<T: Scalar>(
    value: spec_fn(T) -> real,
    v: Seq<T>,
    m: T,
    r: Seq<T>,
    hi: int,
)
    requires
        is_exact(value),
        value(m) != 0real,
        is_divided(v, m, r),
        0 <= hi <= v.len(),
    ensures
        exact_dot(value, r, r, 0, hi) * (value(m) * value(m)) == exact_dot(value, v, v, 0, hi),
    decreases hi,
{
    if hi > 0 {
        lemma_divided_sum_of_squares(value, v, m, r, hi - 1);
        assert(is_quotient(v[hi - 1], m, r[hi - 1]));
        let q = value(r[hi - 1]);
        let x = value(v[hi - 1]);
        let d = value(m);
        let before = exact_dot(value, r, r, 0, hi - 1);
        let target = exact_dot(value, v, v, 0, hi - 1);
        assert((before + q * q) * (d * d) == target + x * x) by (nonlinear_arith)
            requires
                q * d == x,
                before * (d * d) == target,
        ;
    }
}

/// The normalization of a vector has magnitude one: with exact arithmetic
/// and exact square roots, for a vector with an item that does not stand
/// for zero.
pub proof fn law_normalization_has_unit_magnitude<T: Scalar>(
    value: spec_fn(T) -> real,
    v: Seq<T>,
    normalized: Seq<T>,
    magnitude: T,
)
    requires
        is_exact(value),
        has_exact_roots(value),
        exists|i: int| 0 <= i < v.len() && value(#[trigger] v[i]) != 0real,
        is_normalization(v, normalized),
        is_magnitude(normalized, magnitude),
    ensures
        value(magnitude) == 1real,
{
    let n = v.len() as int;
    let m = choose|m: T| #[trigger] is_magnitude(v, m) && is_divided(v, m, normalized);
    let s = choose|s: T| #[trigger] is_dot_range(v, v, 0, n, s) && is_square_root(s, m);
    lemma_dot_range_value(value, v, v, 0, n, s);
    lemma_sum_of_squares(value, v, n);
    let total = exact_dot(value, v, v, 0, n);
    assert(total > 0real);
    assert(value(m) * value(m) == total);
    assert(value(m) != 0real) by (nonlinear_arith)
        requires
            value(m) * value(m) == total,
            total > 0real,
    ;
    lemma_divided_sum_of_squares(value, v, m, normalized, n);
    let t = choose|t: T| #[trigger]
        is_dot_range(normalized, normalized, 0, normalized.len() as int, t) && is_square_root(
            t,
            magnitude,
        );
    lemma_dot_range_value(value, normalized, normalized, 0, n, t);
    let unit = exact_dot(value, normalized, normalized, 0, n);
    assert(unit == 1real) by (nonlinear_arith)
        requires
            unit * total == total,
            total > 0real,
    ;
    assert(value(magnitude) >= 0real && value(magnitude) * value(magnitude) == 1real);
    assert(value(magnitude) == 1real) by (nonlinear_arith)
        requires
            value(magnitude) >= 0real,
            value(magnitude) * value(magnitude) == 1real,
    ;
}

/// The product of `value(d[k])` for `k` below `hi`.
pub open spec fn exact_product<T>(value: spec_fn(T) -> real, d: Seq<T>, hi: int) -> real
    decreases hi,
{
    if hi <= 0 {
        1real
    } else {
        exact_product(value, d, hi - 1) * value(d[hi - 1])
    }
}

/// Partial product `t` stands for the exact product of the first `t` items.
proof fn lemma_partial_products_value<T: Scalar>(
    value: spec_fn(T) -> real,
    d: Seq<T>,
    products: Seq<T>,
    t: int,
)
    requires
        is_exact(value),
        is_partial_products(d, products),
        0 <= t <= d.len(),
    ensures
        value(products[t]) == exact_product(value, d, t),
    decreases t,
{
    if t > 0 {
        lemma_partial_products_value(value, d, products, t - 1);
        assert(partial_product_step(d, products, t - 1));
    } else {
        assert(is_one(products[0]));
    }
}

/// A product of items that all stand for one stands for one.
proof fn lemma_exact_product_of_ones<T>(value: spec_fn(T) -> real, d: Seq<T>, hi: int)
    requires
        forall|k: int| 0 <= k < hi ==> value(#[trigger] d[k]) == 1real,
    ensures
        exact_product(value, d, hi) == 1real,
    decreases hi,
{
    if hi > 0 {
        lemma_exact_product_of_ones(value, d, hi - 1);
        assert(value(d[hi - 1]) == 1real);
    }
}

/// The determinant is the product of the pivots: with exact arithmetic, it
/// stands for the product of the diagonal of the `U` of a decomposition.
pub proof fn law_determinant_is_product_of_pivots<T: Scalar>(
    value: spec_fn(T) -> real,
    a: Seq<Seq<T>>,
    determinant: T,
)
    requires
        is_exact(value),
        is_determinant(a, determinant),
    ensures
        exists|l: Seq<Seq<T>>, u: Seq<Seq<T>>| #[trigger]
            is_lu_decomposition(a, l, u) && value(determinant) == exact_product(
                value,
                diagonal(u),
                a.len() as int,
            ),
{
    let n = a.len() as int;
    let (l, u, dl, du) = choose|l: Seq<Seq<T>>, u: Seq<Seq<T>>, dl: T, du: T|
        #![trigger is_lu_decomposition(a, l, u), is_product(dl, du, determinant)]
        is_lu_decomposition(a, l, u) && is_product_of(diagonal(l), dl) && is_product_of(
            diagonal(u),
            du,
        ) && is_product(dl, du, determinant);
    let ones = choose|products: Seq<T>| #[trigger]
        is_partial_products(diagonal(l), products) && products.last() == dl;
    lemma_partial_products_value(value, diagonal(l), ones, n);
    assert forall|k: int| 0 <= k < n implies value(#[trigger] diagonal(l)[k]) == 1real by {
        assert(is_one(l[k][k]));
    }
    lemma_exact_product_of_ones(value, diagonal(l), n);
    let pivots = choose|products: Seq<T>| #[trigger]
        is_partial_products(diagonal(u), products) && products.last() == du;
    lemma_partial_products_value(value, diagonal(u), pivots, n);
    assert(value(determinant) == value(dl) * value(du));
    assert(is_lu_decomposition(a, l, u));
}

/// A sum of products over `0..hi` is the sum over `0..mid` plus the sum
/// over `mid..hi`.
proof fn lemma_exact_dot_split<T>(
    value: spec_fn(T) -> real,
    a: Seq<T>,
    b: Seq<T>,
    mid: int,
    hi: int,
)
    requires
        0 <= mid <= hi,
    ensures
        exact_dot(value, a, b, 0, hi) == exact_dot(value, a, b, 0, mid) + exact_dot(
            value,
            a,
            b,
            mid,
            hi,
        ),
    decreases hi - mid,
{
    if mid < hi {
        lemma_exact_dot_split(value, a, b, mid, hi - 1);
    }
}

/// With exact arithmetic, forward substitution solves the system: each row
/// of the unit lower triangular `l` times `x` stands for the item of `b`.
proof fn lemma_forward_solution_value<T: Scalar>(
    value: spec_fn(T) -> real,
    l: Seq<Seq<T>>,
    b: Seq<T>,
    x: Seq<T>,
    i: int,
)
    requires
        is_exact(value),
        is_unit_lower(l, l.len() as int),
        is_forward_solution(l, b, x),
        0 <= i < l.len(),
    ensures
        exact_dot(value, l[i], x, 0, l.len() as int) == value(b[i]),
{
    let n = l.len() as int;
    assert(forward_row_holds(l, b, x, i));
    let (s, d) = choose|s: T, d: T|
        #[trigger] is_dot_range(l[i], x, 0, i, s) && #[trigger] is_difference(b[i], s, d)
            && is_quotient(d, l[i][i], x[i]);
    lemma_dot_range_value(value, l[i], x, 0, i, s);
    assert(is_one(l[i][i]));
    assert(value(x[i]) * value(l[i][i]) == value(d));
    assert(exact_dot(value, l[i], x, 0, i + 1) == exact_dot(value, l[i], x, 0, i) + value(l[i][i])
        * value(x[i]));
    assert forall|k: int| i + 1 <= k < n implies value(#[trigger] l[i][k]) == 0real by {
        assert(is_zero(l[i][k]));
    }
    lemma_exact_dot_zero_tail(value, l[i], x, i + 1, n);
}

/// With exact arithmetic, backward substitution solves the system: each
/// row of `u` times `y` stands for the item of `x`, where `u` stands for
/// zero below its diagonal and for another number on it.
proof fn lemma_backward_solution_value<T: Scalar>(
    value: spec_fn(T) -> real,
    u: Seq<Seq<T>>,
    x: Seq<T>,
    y: Seq<T>,
    i: int,
)
    requires
        is_exact(value),
        has_shape(u, u.len() as int, u.len() as int),
        forall|r: int, c: int| 0 <= c < r < u.len() ==> value(#[trigger] u[r][c]) == 0real,
        forall|j: int| 0 <= j < u.len() ==> value(#[trigger] u[j][j]) != 0real,
        is_backward_solution(u, x, y),
        0 <= i < u.len(),
    ensures
        exact_dot(value, u[i], y, 0, u.len() as int) == value(x[i]),
{
    let n = u.len() as int;
    assert(backward_row_holds(u, x, y, i));
    let (s, d) = choose|s: T, d: T|
        #[trigger] is_dot_range(u[i], y, i + 1, n, s) && #[trigger] is_difference(x[i], s, d)
            && is_quotient(d, u[i][i], y[i]);
    lemma_dot_range_value(value, u[i], y, i + 1, n, s);
    assert(value(u[i][i]) != 0real);
    assert(value(y[i]) * value(u[i][i]) == value(d));
    assert(value(u[i][i]) * value(y[i]) == value(y[i]) * value(u[i][i])) by (nonlinear_arith);
    assert forall|k: int| 0 <= k < i implies value(#[trigger] u[i][k]) == 0real by {}
    lemma_exact_dot_zero_tail(value, u[i], y, 0, i);
    assert(exact_dot(value, u[i], y, 0, 0) == 0real);
    assert(exact_dot(value, u[i], y, 0, i + 1) == exact_dot(value, u[i], y, 0, i) + value(u[i][i])
        * value(y[i]));
    lemma_exact_dot_split(value, u[i], y, i + 1, n);
}

/// The sum over `k < hi` of the first `m` terms of row `l_row` times column
/// `k` of `u`, times `value(y[k])`.
pub open spec fn exact_double_sum<T>(
    value: spec_fn(T) -> real,
    l_row: Seq<T>,
    u: Seq<Seq<T>>,
    y: Seq<T>,
    m: int,
    hi: int,
) -> real
    decreases hi,
{
    if hi <= 0 {
        0real
    } else {
        exact_double_sum(value, l_row, u, y, m, hi - 1) + exact_dot(
            value,
            l_row,
            column(u, hi - 1),
            0,
            m,
        ) * value(y[hi - 1])
    }
}

/// One more term of the inner sums adds one row of `u` times `y`.
proof fn lemma_double_sum_step<T>(
    value: spec_fn(T) -> real,
    l_row: Seq<T>,
    u: Seq<Seq<T>>,
    y: Seq<T>,
    m: int,
    hi: int,
)
    requires
        0 < m <= u.len(),
        0 <= hi,
    ensures
        exact_double_sum(value, l_row, u, y, m, hi) == exact_double_sum(
            value,
            l_row,
            u,
            y,
            m - 1,
            hi,
        ) + value(l_row[m - 1]) * exact_dot(value, u[m - 1], y, 0, hi),
    decreases hi,
{
    if hi > 0 {
        lemma_double_sum_step(value, l_row, u, y, m, hi - 1);
        let k = hi - 1;
        let col = column(u, k);
        assert(col[m - 1] == u[m - 1][k]);
        let head = exact_dot(value, l_row, col, 0, m - 1);
        let lm = value(l_row[m - 1]);
        let um = value(u[m - 1][k]);
        let yk = value(y[k]);
        let row_before = exact_dot(value, u[m - 1], y, 0, hi - 1);
        assert(exact_dot(value, l_row, col, 0, m) == head + lm * um);
        assert(exact_dot(value, u[m - 1], y, 0, hi) == row_before + um * yk);
        assert((head + lm * um) * yk + lm * row_before == head * yk + lm * (row_before + um * yk))
            by (nonlinear_arith);
    } else {
        assert(value(l_row[m - 1]) * 0real == 0real) by (nonlinear_arith);
    }
}

/// Summing by rows of `u` instead of by columns: the double sum is the sum
/// of the items of `l_row` times what the rows of `u` times `y` stand for.
proof fn lemma_double_sum_by_rows<T>(
    value: spec_fn(T) -> real,
    l_row: Seq<T>,
    u: Seq<Seq<T>>,
    y: Seq<T>,
    x: Seq<T>,
    m: int,
)
    requires
        0 <= m <= u.len(),
        forall|j: int|
            0 <= j < m ==> exact_dot(value, #[trigger] u[j], y, 0, u.len() as int) == value(x[j]),
    ensures
        exact_double_sum(value, l_row, u, y, m, u.len() as int) == exact_dot(
            value,
            l_row,
            x,
            0,
            m,
        ),
    decreases m,
{
    let n = u.len() as int;
    if m > 0 {
        lemma_double_sum_by_rows(value, l_row, u, y, x, m - 1);
        lemma_double_sum_step(value, l_row, u, y, m, n);
        assert(exact_dot(value, u[m - 1], y, 0, n) == value(x[m - 1]));
    } else {
        lemma_double_sum_zero(value, l_row, u, y, n);
    }
}

/// A double sum of no inner terms is zero.
proof fn lemma_double_sum_zero<T>(
    value: spec_fn(T) -> real,
    l_row: Seq<T>,
    u: Seq<Seq<T>>,
    y: Seq<T>,
    hi: int,
)
    ensures
        exact_double_sum(value, l_row, u, y, 0, hi) == 0real,
    decreases hi,
{
    if hi > 0 {
        lemma_double_sum_zero(value, l_row, u, y, hi - 1);
        assert(0real * value(y[hi - 1]) == 0real) by (nonlinear_arith);
    }
}

/// A row whose items stand for rows of `l` times columns of `u`, times
/// `y`, is the double sum.
proof fn lemma_row_times_vector<T>(
    value: spec_fn(T) -> real,
    a_row: Seq<T>,
    l_row: Seq<T>,
    u: Seq<Seq<T>>,
    y: Seq<T>,
    hi: int,
)
    requires
        0 <= hi,
        forall|k: int|
            0 <= k < hi ==> value(#[trigger] a_row[k]) == exact_dot(
                value,
                l_row,
                column(u, k),
                0,
                u.len() as int,
            ),
    ensures
        exact_dot(value, a_row, y, 0, hi) == exact_double_sum(
            value,
            l_row,
            u,
            y,
            u.len() as int,
            hi,
        ),
    decreases hi,
{
    if hi > 0 {
        lemma_row_times_vector(value, a_row, l_row, u, y, hi - 1);
        assert(value(a_row[hi - 1]) == exact_dot(value, l_row, column(u, hi - 1), 0, u.len() as int));
    }
}

/// Every decomposition of `a` has pivots that stand for numbers other than
/// zero.
pub open spec fn has_pivots<T: Scalar>(value: spec_fn(T) -> real, a: Seq<Seq<T>>) -> bool {
    forall|l: Seq<Seq<T>>, u: Seq<Seq<T>>, j: int|
        #![trigger is_lu_decomposition(a, l, u), u[j][j]]
        is_lu_decomposition(a, l, u) && 0 <= j < a.len() ==> value(u[j][j]) != 0real
}

/// The inverse is an inverse: with exact arithmetic and pivots other than
/// zero, the product of `a` and its inverse stands for the identity.
pub proof fn law_matrix_times_inverse<T: Scalar>(
    value: spec_fn(T) -> real,
    a: Seq<Seq<T>>,
    inverse: Seq<Seq<T>>,
    product: Seq<Seq<T>>,
)
    requires
        is_exact(value),
        has_shape(a, a.len() as int, a.len() as int),
        has_pivots(value, a),
        is_inverse(a, inverse),
        has_shape(product, a.len() as int, a.len() as int),
        is_matrix_product(a, inverse, product),
    ensures
        forall|i: int, c: int|
            0 <= i < a.len() && 0 <= c < a.len() ==> value(#[trigger] product[i][c]) == if i == c {
                1real
            } else {
                0real
            },
{
    let n = a.len() as int;
    let (l, u, identity) = choose|l: Seq<Seq<T>>, u: Seq<Seq<T>>, identity: Seq<Seq<T>>|
        #![trigger is_lu_decomposition(a, l, u), is_identity(identity, a.len() as int)]
        is_lu_decomposition(a, l, u) && is_identity(identity, a.len() as int) && forall|c: int|
            0 <= c < a.len() ==> #[trigger] column_solved(l, u, identity, inverse, c);
    assert forall|j: int| 0 <= j < n implies value(#[trigger] u[j][j]) != 0real by {
        assert(is_lu_decomposition(a, l, u));
    }
    lemma_decomposition_value(value, a, l, u);
    assert forall|i: int, c: int| 0 <= i < n && 0 <= c < n implies value(#[trigger] product[i][c])
        == if i == c {
        1real
    } else {
        0real
    } by {
        let y = column(inverse, c);
        let e = column(identity, c);
        assert(column_solved(l, u, identity, inverse, c));
        let x = choose|x: Seq<T>| #[trigger]
            is_forward_solution(l, e, x) && is_backward_solution(u, x, y);
        assert(product[i].len() == n);
        lemma_dot_range_value(value, a[i], y, 0, n, product[i][c]);
        assert forall|k: int| 0 <= k < n implies value(#[trigger] a[i][k]) == exact_dot(
            value,
            l[i],
            column(u, k),
            0,
            u.len() as int,
        ) by {}
        lemma_row_times_vector(value, a[i], l[i], u, y, n);
        assert forall|j: int| 0 <= j < n implies exact_dot(value, #[trigger] u[j], y, 0, n)
            == value(x[j]) by {
            lemma_backward_solution_value(value, u, x, y, j);
        }
        lemma_double_sum_by_rows(value, l[i], u, y, x, n);
        lemma_forward_solution_value(value, l, e, x, i);
        assert(e[i] == identity[i][c]);
        if i == c {
            assert(is_one(identity[i][c]));
        } else {
            assert(is_zero(identity[i][c]));
        }
    }
}

} // verus!
