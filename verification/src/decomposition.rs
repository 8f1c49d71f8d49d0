//! LU decomposition by Doolittle's method without pivoting, and the
//! determinant and inverse that are computed from it.
use crate::matrix::{
    column, diagonal, has_shape, is_identity, rows_of, zero_rows, AlgebrustMatrix,
};
use crate::row::{
    copy_row, dot_range, is_product_of, is_solved_entry, lemma_dot_range_reads,
    lemma_solved_entry_reads, product_of, zeros,
};
use crate::scalar::{
    is_difference, is_one, is_product, is_quotient, is_reduced, is_zero, Scalar,
};
use vstd::prelude::*;

verus! {

/// `m` is `n` by `n` with ones on the diagonal and zeros above it.
pub open spec fn is_unit_lower<T: Scalar>(m: Seq<Seq<T>>, n: int) -> bool {
    &&& has_shape(m, n, n)
    &&& forall|i: int| 0 <= i < n ==> is_one(#[trigger] m[i][i])
    &&& forall|i: int, j: int| 0 <= i < j < n ==> is_zero(#[trigger] m[i][j])
}

/// `reduced` is `row` after elimination against `pivot_row` on column `j`:
/// `multiplier` is `row[j] / pivot_row[j]`, the entries before column `j`
/// are kept, and from column `j` on each entry is
/// `row[k] - multiplier * pivot_row[k]`.
pub open spec fn is_eliminated_row<T: Scalar>(
    row: Seq<T>,
    pivot_row: Seq<T>,
    j: int,
    multiplier: T,
    reduced: Seq<T>,
) -> bool {
    &&& is_quotient(row[j], pivot_row[j], multiplier)
    &&& reduced.len() == row.len()
    &&& forall|k: int| 0 <= k < j ==> #[trigger] reduced[k] == row[k]
    &&& forall|k: int|
        j <= k < row.len() ==> is_reduced(row[k], multiplier, pivot_row[k], #[trigger] reduced[k])
}

/// `after` is `before` with pivot column `j` eliminated: the rows down to
/// row `j` are kept, and each row `i` below it is reduced against row `j`
/// with the multiplier `lower[i][j]`.
pub open spec fn is_elimination_round<T: Scalar>(
    before: Seq<Seq<T>>,
    j: int,
    lower: Seq<Seq<T>>,
    after: Seq<Seq<T>>,
) -> bool {
    &&& after.len() == before.len()
    &&& forall|i: int| 0 <= i <= j && i < before.len() ==> #[trigger] after[i] == before[i]
    &&& forall|i: int|
        j < i < before.len() ==> is_eliminated_row(
            before[i],
            before[j],
            j,
            lower[i][j],
            #[trigger] after[i],
        )
}

/// Stage `j + 1` comes from stage `j` by eliminating pivot column `j`.
pub open spec fn round_holds<T: Scalar>(
    stages: Seq<Seq<Seq<T>>>,
    j: int,
    lower: Seq<Seq<T>>,
) -> bool {
    is_elimination_round(stages[j], j, lower, stages[j + 1])
}

/// `stages` records elimination without pivoting on `a`: it starts with `a`
/// and holds the matrix after each pivot column, from the first column to
/// the last.
pub open spec fn is_elimination<T: Scalar>(
    a: Seq<Seq<T>>,
    lower: Seq<Seq<T>>,
    stages: Seq<Seq<Seq<T>>>,
) -> bool {
    &&& stages.len() == a.len() + 1
    &&& stages[0] == a
    &&& forall|j: int| 0 <= j < a.len() ==> #[trigger] round_holds(stages, j, lower)
}

/// `(l, u)` is the decomposition of the square matrix `a` by Doolittle's
/// method without pivoting: `u` is what elimination leaves of `a`, and `l`
/// is the identity with the multipliers put below its diagonal.
pub open spec fn is_lu_decomposition<T: Scalar>(
    a: Seq<Seq<T>>,
    l: Seq<Seq<T>>,
    u: Seq<Seq<T>>,
) -> bool {
    &&& is_unit_lower(l, a.len() as int)
    &&& has_shape(u, a.len() as int, a.len() as int)
    &&& exists|stages: Seq<Seq<Seq<T>>>| #[trigger]
        is_elimination(a, l, stages) && stages.last() == u
}

/// A round does not depend on the entries of `lower` outside its column.
proof fn lemma_round_frame<T: Scalar>(
    stages: Seq<Seq<Seq<T>>>,
    j: int,
    lower: Seq<Seq<T>>,
    other: Seq<Seq<T>>,
)
    requires
        round_holds(stages, j, lower),
        forall|i: int| j < i < stages[j].len() ==> #[trigger] other[i][j] == lower[i][j],
    ensures
        round_holds(stages, j, other),
{
    let before = stages[j];
    let after = stages[j + 1];
    assert forall|i: int| j < i < before.len() implies is_eliminated_row(
        before[i],
        before[j],
        j,
        other[i][j],
        #[trigger] after[i],
    ) by {
        assert(is_eliminated_row(before[i], before[j], j, lower[i][j], after[i]));
        assert(other[i][j] == lower[i][j]);
    }
}

/// Row `i` of `l * x = b` is solved for `x[i]` from the entries before it:
/// `x[i]` is `(b[i] - sum of l[i][k] * x[k] for k < i) / l[i][i]`.
pub open spec fn forward_row_holds<T: Scalar>(l: Seq<Seq<T>>, b: Seq<T>, x: Seq<T>, i: int) -> bool {
    is_solved_entry(l[i], x, 0, i, b[i], l[i][i], x[i])
}

/// `x` solves `l * x = b` by forward substitution, from the first row down.
pub open spec fn is_forward_solution<T: Scalar>(l: Seq<Seq<T>>, b: Seq<T>, x: Seq<T>) -> bool {
    &&& x.len() == l.len()
    &&& forall|i: int| 0 <= i < l.len() ==> #[trigger] forward_row_holds(l, b, x, i)
}

/// Row `i` of `u * y = x` is solved for `y[i]` from the entries after it:
/// `y[i]` is `(x[i] - sum of u[i][k] * y[k] for k > i) / u[i][i]`.
pub open spec fn backward_row_holds<T: Scalar>(u: Seq<Seq<T>>, x: Seq<T>, y: Seq<T>, i: int) -> bool {
    is_solved_entry(u[i], y, i + 1, u.len() as int, x[i], u[i][i], y[i])
}

/// `y` solves `u * y = x` by backward substitution, from the last row up.
pub open spec fn is_backward_solution<T: Scalar>(u: Seq<Seq<T>>, x: Seq<T>, y: Seq<T>) -> bool {
    &&& y.len() == u.len()
    &&& forall|i: int| 0 <= i < u.len() ==> #[trigger] backward_row_holds(u, x, y, i)
}

/// Column `c` of `inverse` solves `l * u * column = e_c`, where `e_c` is
/// column `c` of `identity`: forward substitution on `l`, then backward
/// substitution on `u`.
pub open spec fn column_solved<T: Scalar>(
    l: Seq<Seq<T>>,
    u: Seq<Seq<T>>,
    identity: Seq<Seq<T>>,
    inverse: Seq<Seq<T>>,
    c: int,
) -> bool {
    exists|x: Seq<T>| #[trigger]
        is_forward_solution(l, column(identity, c), x) && is_backward_solution(
            u,
            x,
            column(inverse, c),
        )
}

/// `r` is the inverse of the square matrix `a` as computed from one LU
/// decomposition of `a` and one pair of triangular solves for each column
/// of the identity.
pub open spec fn is_inverse<T: Scalar>(a: Seq<Seq<T>>, r: Seq<Seq<T>>) -> bool {
    &&& has_shape(r, a.len() as int, a.len() as int)
    &&& exists|l: Seq<Seq<T>>, u: Seq<Seq<T>>, identity: Seq<Seq<T>>|
        #![trigger is_lu_decomposition(a, l, u), is_identity(identity, a.len() as int)]
        is_lu_decomposition(a, l, u) && is_identity(identity, a.len() as int) && forall|c: int|
            0 <= c < a.len() ==> #[trigger] column_solved(l, u, identity, r, c)
}

/// `r` is the determinant of the square matrix `a` as computed from one LU
/// decomposition of `a`: the product of the diagonal of `L` times the
/// product of the diagonal of `U`.
pub open spec fn is_determinant<T: Scalar>(a: Seq<Seq<T>>, r: T) -> bool {
    exists|l: Seq<Seq<T>>, u: Seq<Seq<T>>, dl: T, du: T|
        #![trigger is_lu_decomposition(a, l, u), is_product(dl, du, r)]
        is_lu_decomposition(a, l, u) && is_product_of(diagonal(l), dl) && is_product_of(
            diagonal(u),
            du,
        ) && is_product(dl, du, r)
}

/// No round of elimination changes the first row.
proof fn lemma_first_row_kept<T: Scalar>(
    a: Seq<Seq<T>>,
    l: Seq<Seq<T>>,
    stages: Seq<Seq<Seq<T>>>,
    j: int,
)
    requires
        a.len() > 0,
        is_elimination(a, l, stages),
        0 <= j <= a.len(),
    ensures
        stages[j].len() == a.len(),
        stages[j][0] == a[0],
    decreases j,
{
    if j > 0 {
        lemma_first_row_kept(a, l, stages, j - 1);
        assert(round_holds(stages, j - 1, l));
    }
}

/// The first pivot: the first row of `U` is the first row of `A`, and the
/// first column of `L` holds, below its one, the quotients of the first
/// column of `A` by the first pivot `A[0][0]`.
pub proof fn law_first_pivot<T: Scalar>(a: Seq<Seq<T>>, l: Seq<Seq<T>>, u: Seq<Seq<T>>)
    requires
        a.len() > 0,
        is_lu_decomposition(a, l, u),
    ensures
        u[0] == a[0],
        is_one(l[0][0]),
        forall|i: int| 0 < i < a.len() ==> is_quotient(a[i][0], a[0][0], #[trigger] l[i][0]),
{
    let stages = choose|stages: Seq<Seq<Seq<T>>>| #[trigger]
        is_elimination(a, l, stages) && stages.last() == u;
    lemma_first_row_kept(a, l, stages, a.len() as int);
    assert(round_holds(stages, 0, l));
    assert forall|i: int| 0 < i < a.len() implies is_quotient(
        a[i][0],
        a[0][0],
        #[trigger] l[i][0],
    ) by {
        assert(is_eliminated_row(a[i], a[0], 0, l[i][0], stages[1][i]));
    }
}

/// Replaces entry `(i, j)` of `m` by `value`.
fn set_entry<T: Scalar>(m: &mut Vec<Vec<T>>, i: usize, j: usize, value: T)
    requires
        i < old(m).len(),
        j < old(m)[i as int].len(),
    ensures
        rows_of(final(m)@) == rows_of(old(m)@).update(
            i as int,
            rows_of(old(m)@)[i as int].update(j as int, value),
        ),
{
    m[i][j] = value;
}

/// Copies a grid of rows.
fn copy_rows<T: Scalar>(m: &Vec<Vec<T>>) -> (r: Vec<Vec<T>>)
    ensures
        rows_of(r@) == rows_of(m@),
{
    let mut r: Vec<Vec<T>> = Vec::new();
    let mut i: usize = 0;
    while i < m.len()
        invariant
            i <= m.len(),
            r.len() == i,
            forall|a: int| 0 <= a < i ==> (#[trigger] r@[a])@ == m@[a]@,
        decreases m.len() - i,
    {
        let row = copy_row(&m[i]);
        r.push(row);
        i += 1;
    }
    assert(rows_of(r@) =~= rows_of(m@));
    r
}

impl<T: Scalar> AlgebrustMatrix<T> {
    /// Decomposes a square matrix into a unit lower triangular `L` and an
    /// upper factor `U` by Doolittle's method. Rows are never exchanged, and
    /// a zero pivot is divided by like any other.
    pub fn lu_decomposition(&self) -> (r: (AlgebrustMatrix<T>, AlgebrustMatrix<T>))
        requires
            self.rows() > 0,
            self.rows() == self.cols(),
        ensures
            is_lu_decomposition(self@, r.0@, r.1@),
            is_unit_lower(r.0@, self.rows()),
            has_shape(r.1@, self.rows(), self.rows()),
    {
        proof {
            use_type_invariant(self);
        }
        let (n, _) = self.size();
        let mut l = Self::get_identity_matrix(n);
        let mut u = copy_rows(self.matrix_ref());
        let ghost mut stages: Seq<Seq<Seq<T>>> = seq![self@];
        let mut j: usize = 0;
        while j < n
            invariant
                j <= n,
                n == self@.len(),
                is_unit_lower(rows_of(l@), n as int),
                has_shape(rows_of(u@), n as int, n as int),
                stages.len() == j + 1,
                stages[0] == self@,
                stages.last() == rows_of(u@),
                forall|t: int| 0 <= t <= j ==> (#[trigger] stages[t]).len() == n,
                forall|t: int| 0 <= t < j ==> #[trigger] round_holds(stages, t, rows_of(l@)),
            decreases n - j,
        {
            let ghost before = rows_of(u@);
            let ghost lower_before = rows_of(l@);
            let mut i: usize = j + 1;
            while i < n
                invariant
                    j < i <= n,
                    n == self@.len(),
                    is_unit_lower(rows_of(l@), n as int),
                    has_shape(rows_of(u@), n as int, n as int),
                    has_shape(before, n as int, n as int),
                    has_shape(lower_before, n as int, n as int),
                    forall|a: int, b: int|
                        0 <= a < n && 0 <= b < n && b != j ==> #[trigger] rows_of(l@)[a][b]
                            == lower_before[a][b],
                    forall|a: int| 0 <= a <= j ==> #[trigger] rows_of(u@)[a] == before[a],
                    forall|a: int| i <= a < n ==> #[trigger] rows_of(u@)[a] == before[a],
                    forall|a: int|
                        j < a < i ==> is_eliminated_row(
                            before[a],
                            before[j as int],
                            j as int,
                            rows_of(l@)[a][j as int],
                            #[trigger] rows_of(u@)[a],
                        ),
                decreases n - i,
            {
                let ghost lower_mid = rows_of(l@);
                let ghost upper_mid = rows_of(u@);
                assert(upper_mid[i as int] == before[i as int]);
                assert(upper_mid[j as int] == before[j as int]);
                assert(upper_mid[i as int].len() == n && upper_mid[j as int].len() == n);
                assert(lower_mid[i as int].len() == n);
                let multiplier = u[i][j].divided_by(u[j][j]);
                set_entry(&mut l, i, j, multiplier);
                let mut k: usize = j;
                while k < n
                    invariant
                        j <= k <= n,
                        j < i < n,
                        has_shape(rows_of(u@), n as int, n as int),
                        has_shape(upper_mid, n as int, n as int),
                        forall|a: int| 0 <= a < n && a != i ==> #[trigger] rows_of(u@)[a] == upper_mid[a],
                        forall|c: int|
                            0 <= c < j ==> #[trigger] rows_of(u@)[i as int][c] == upper_mid[i as int][c],
                        forall|c: int|
                            k <= c < n ==> #[trigger] rows_of(u@)[i as int][c] == upper_mid[i as int][c],
                        forall|c: int|
                            j <= c < k ==> is_reduced(
                                upper_mid[i as int][c],
                                multiplier,
                                upper_mid[j as int][c],
                                #[trigger] rows_of(u@)[i as int][c],
                            ),
                    decreases n - k,
                {
                    assert(rows_of(u@)[i as int].len() == n && rows_of(u@)[j as int].len() == n);
                    let product = multiplier.times(u[j][k]);
                    let reduced = u[i][k].minus(product);
                    assert(is_product(multiplier, upper_mid[j as int][k as int], product));
                    set_entry(&mut u, i, k, reduced);
                    k += 1;
                }
                proof {
                    let lower_now = rows_of(l@);
                    let upper_now = rows_of(u@);
                    assert(lower_now[i as int][j as int] == multiplier);
                    assert(is_eliminated_row(
                        before[i as int],
                        before[j as int],
                        j as int,
                        multiplier,
                        upper_now[i as int],
                    ));
                    assert forall|a: int| j < a < i + 1 implies is_eliminated_row(
                        before[a],
                        before[j as int],
                        j as int,
                        lower_now[a][j as int],
                        #[trigger] upper_now[a],
                    ) by {
                        if a < i {
                            assert(upper_now[a] == upper_mid[a]);
                            assert(lower_now[a] == lower_mid[a]);
                        }
                    }
                    assert forall|a: int, b: int|
                        0 <= a < n && 0 <= b < n && b != j implies #[trigger] lower_now[a][b]
                        == lower_before[a][b] by {
                        assert(lower_mid[a][b] == lower_before[a][b]);
                    }
                    assert(is_unit_lower(lower_now, n as int)) by {
                        assert forall|a: int| 0 <= a < n implies is_one(#[trigger] lower_now[a][a]) by {
                            assert(lower_now[a][a] == lower_mid[a][a]);
                        }
                        assert forall|a: int, b: int| 0 <= a < b < n implies is_zero(
                            #[trigger] lower_now[a][b],
                        ) by {
                            assert(lower_now[a][b] == lower_mid[a][b]);
                        }
                    }
                }
                i += 1;
            }
            proof {
                let lower_now = rows_of(l@);
                let grown = stages.push(rows_of(u@));
                assert(round_holds(grown, j as int, lower_now));
                assert forall|t: int| 0 <= t < j implies #[trigger] round_holds(
                    grown,
                    t,
                    lower_now,
                ) by {
                    assert(round_holds(stages, t, lower_before));
                    assert(grown[t] == stages[t]);
                    assert(grown[t + 1] == stages[t + 1]);
                    assert(round_holds(grown, t, lower_before));
                    lemma_round_frame(grown, t, lower_before, lower_now);
                }
                stages = grown;
            }
            j += 1;
        }
        let lower = AlgebrustMatrix::from_rows(l, n);
        let upper = AlgebrustMatrix::from_rows(u, n);
        assert(is_elimination(self@, lower@, stages));
        (lower, upper)
    }

    /// The product of the first `n` diagonal entries.
    fn get_diagonal_product(matrix: &Vec<Vec<T>>, n: usize) -> (r: T)
        requires
            has_shape(rows_of(matrix@), n as int, n as int),
        ensures
            is_product_of(diagonal(rows_of(matrix@)), r),
    {
        let mut d: Vec<T> = Vec::new();
        let mut i: usize = 0;
        while i < n
            invariant
                i <= n,
                has_shape(rows_of(matrix@), n as int, n as int),
                d@ == diagonal(rows_of(matrix@)).take(i as int),
            decreases n - i,
        {
            assert(rows_of(matrix@)[i as int].len() == n);
            d.push(matrix[i][i]);
            i += 1;
        }
        assert(d@ == diagonal(rows_of(matrix@)));
        product_of(&d)
    }

    /// Solves `l * x = b` for `x`, from the first row down.
    fn forward_substitution(l: &Vec<Vec<T>>, b: &Vec<T>) -> (x: Vec<T>)
        requires
            has_shape(rows_of(l@), b.len() as int, b.len() as int),
        ensures
            is_forward_solution(rows_of(l@), b@, x@),
    {
        let n = l.len();
        let mut x: Vec<T> = zeros(n);
        let mut i: usize = 0;
        while i < n
            invariant
                i <= n,
                n == b.len(),
                has_shape(rows_of(l@), n as int, n as int),
                x.len() == n,
                forall|t: int| 0 <= t < i ==> #[trigger] forward_row_holds(rows_of(l@), b@, x@, t),
            decreases n - i,
        {
            assert(rows_of(l@)[i as int].len() == n);
            let summation = dot_range(&l[i], &x, 0, i);
            let difference = b[i].minus(summation);
            let value = difference.divided_by(l[i][i]);
            let ghost earlier = x@;
            x[i] = value;
            proof {
                let lower = rows_of(l@);
                lemma_dot_range_reads(lower[i as int], earlier, lower[i as int], x@, 0, i as int, summation);
                assert(is_difference(b@[i as int], summation, difference));
                assert(forward_row_holds(lower, b@, x@, i as int));
                assert forall|t: int| 0 <= t < i implies #[trigger] forward_row_holds(
                    lower,
                    b@,
                    x@,
                    t,
                ) by {
                    assert(forward_row_holds(lower, b@, earlier, t));
                    lemma_solved_entry_reads(lower[t], earlier, x@, 0, t, b@[t], lower[t][t], earlier[t]);
                }
            }
            i += 1;
        }
        x
    }

    /// Solves `u * y = x` for `y`, from the last row up.
    fn backward_substitution(u: &Vec<Vec<T>>, x: &Vec<T>) -> (y: Vec<T>)
        requires
            has_shape(rows_of(u@), x.len() as int, x.len() as int),
        ensures
            is_backward_solution(rows_of(u@), x@, y@),
    {
        let n = u.len();
        let mut y: Vec<T> = zeros(n);
        let mut i: usize = n;
        while i > 0
            invariant
                i <= n,
                n == x.len(),
                has_shape(rows_of(u@), n as int, n as int),
                y.len() == n,
                forall|t: int| i <= t < n ==> #[trigger] backward_row_holds(rows_of(u@), x@, y@, t),
            decreases i,
        {
            i -= 1;
            assert(rows_of(u@)[i as int].len() == n);
            let summation = dot_range(&u[i], &y, i + 1, n);
            let difference = x[i].minus(summation);
            let value = difference.divided_by(u[i][i]);
            let ghost earlier = y@;
            y[i] = value;
            proof {
                let upper = rows_of(u@);
                lemma_dot_range_reads(
                    upper[i as int],
                    earlier,
                    upper[i as int],
                    y@,
                    i + 1,
                    n as int,
                    summation,
                );
                assert(is_difference(x@[i as int], summation, difference));
                assert(backward_row_holds(upper, x@, y@, i as int));
                assert forall|t: int| i < t < n implies #[trigger] backward_row_holds(
                    upper,
                    x@,
                    y@,
                    t,
                ) by {
                    assert(backward_row_holds(upper, x@, earlier, t));
                    lemma_solved_entry_reads(
                        upper[t],
                        earlier,
                        y@,
                        t + 1,
                        n as int,
                        x@[t],
                        upper[t][t],
                        earlier[t],
                    );
                }
            }
        }
        y
    }

    /// The determinant of a square matrix, from its LU decomposition.
    pub fn determinant(&self) -> (r: T)
        requires
            self.rows() > 0,
            self.rows() == self.cols(),
        ensures
            is_determinant(self@, r),
    {
        let (n, _) = self.size();
        let (l, u) = self.lu_decomposition();
        let determinant_l = Self::get_diagonal_product(l.matrix_ref(), n);
        let determinant_u = Self::get_diagonal_product(u.matrix_ref(), n);
        let r = determinant_l.times(determinant_u);
        assert(is_lu_decomposition(self@, l@, u@) && is_product(determinant_l, determinant_u, r));
        r
    }

    /// The inverse of a square matrix, from its LU decomposition. A
    /// singular matrix is not detected: its zero pivot is divided by.
    pub fn inverse(&self) -> (r: AlgebrustMatrix<T>)
        requires
            self.rows() > 0,
            self.rows() == self.cols(),
        ensures
            is_inverse(self@, r@),
    {
        let (n, _) = self.size();
        let (l, u) = self.lu_decomposition();
        let identity_matrix = AlgebrustMatrix::from_rows(Self::get_identity_matrix(n), n);
        let mut inverse_matrix: Vec<Vec<T>> = zero_rows(n, n);
        let mut i: usize = 0;
        while i < n
            invariant
                i <= n,
                n == self@.len(),
                is_lu_decomposition(self@, l@, u@),
                is_identity(identity_matrix@, n as int),
                has_shape(rows_of(inverse_matrix@), n as int, n as int),
                forall|c: int|
                    0 <= c < i ==> #[trigger] column_solved(
                        l@,
                        u@,
                        identity_matrix@,
                        rows_of(inverse_matrix@),
                        c,
                    ),
            decreases n - i,
        {
            let e_i = identity_matrix.get_column(i);
            let x_i = Self::forward_substitution(l.matrix_ref(), &e_i);
            let y_i = Self::backward_substitution(u.matrix_ref(), &x_i);
            let ghost before = rows_of(inverse_matrix@);
            let mut j: usize = 0;
            while j < n
                invariant
                    j <= n,
                    i < n,
                    y_i.len() == n,
                    has_shape(rows_of(inverse_matrix@), n as int, n as int),
                    has_shape(before, n as int, n as int),
                    forall|a: int, c: int|
                        0 <= a < n && 0 <= c < n && c != i ==> #[trigger] rows_of(
                            inverse_matrix@,
                        )[a][c] == before[a][c],
                    forall|a: int| 0 <= a < j ==> #[trigger] rows_of(inverse_matrix@)[a][i as int] == y_i@[a],
                decreases n - j,
            {
                assert(rows_of(inverse_matrix@)[j as int].len() == n);
                set_entry(&mut inverse_matrix, j, i, y_i[j]);
                j += 1;
            }
            proof {
                let now = rows_of(inverse_matrix@);
                assert(column(now, i as int) == y_i@);
                assert(column_solved(l@, u@, identity_matrix@, now, i as int));
                assert forall|c: int| 0 <= c < i implies #[trigger] column_solved(
                    l@,
                    u@,
                    identity_matrix@,
                    now,
                    c,
                ) by {
                    assert(column_solved(l@, u@, identity_matrix@, before, c));
                    assert(column(now, c) == column(before, c));
                }
            }
            i += 1;
        }
        AlgebrustMatrix::from_rows(inverse_matrix, n)
    }
}

} // verus!
