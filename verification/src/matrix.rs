//! Dense matrices: rows of scalars, all of one length.
use crate::row::{
    copy_slice, difference_of_rows, dot_range, is_dot_range, is_itemwise_difference,
    is_itemwise_sum, is_samples, is_scaled, is_zeros, sample_row, scaled_row, sum_of_rows, zeros,
};
use crate::scalar::{is_one, is_zero, Scalar, UniformSample};
use vstd::prelude::*;

verus! {

/// `m` has `rows` rows of `cols` items each.
pub open spec fn has_shape<T>(m: Seq<Seq<T>>, rows: int, cols: int) -> bool {
    &&& m.len() == rows
    &&& forall|i: int| 0 <= i < rows ==> (#[trigger] m[i]).len() == cols
}

/// Column `j` of `m`, from the first row to the last.
pub open spec fn column<T>(m: Seq<Seq<T>>, j: int) -> Seq<T> {
    Seq::new(m.len(), |i: int| m[i][j])
}

/// The rows of `m` as sequences.
pub open spec fn rows_of<T>(m: Seq<Vec<T>>) -> Seq<Seq<T>> {
    Seq::new(m.len(), |i: int| m[i]@)
}

/// The diagonal of `m`, from the top left.
pub open spec fn diagonal<T>(m: Seq<Seq<T>>) -> Seq<T> {
    Seq::new(m.len(), |i: int| m[i][i])
}

/// `m` is the `n` by `n` identity: ones on the diagonal, zeros elsewhere.
pub open spec fn is_identity<T: Scalar>(m: Seq<Seq<T>>, n: int) -> bool {
    &&& has_shape(m, n, n)
    &&& forall|i: int, j: int|
        #![trigger m[i][j]]
        0 <= i < n && 0 <= j < n ==> if i == j {
            is_one(m[i][j])
        } else {
            is_zero(m[i][j])
        }
}

/// `r` is `a + b`, entry by entry.
pub open spec fn is_entrywise_sum<T: Scalar>(
    a: Seq<Seq<T>>,
    b: Seq<Seq<T>>,
    r: Seq<Seq<T>>,
) -> bool {
    &&& r.len() == a.len()
    &&& forall|i: int| 0 <= i < a.len() ==> is_itemwise_sum(a[i], b[i], #[trigger] r[i])
}

/// `r` is `a - b`, entry by entry.
pub open spec fn is_entrywise_difference<T: Scalar>(
    a: Seq<Seq<T>>,
    b: Seq<Seq<T>>,
    r: Seq<Seq<T>>,
) -> bool {
    &&& r.len() == a.len()
    &&& forall|i: int| 0 <= i < a.len() ==> is_itemwise_difference(a[i], b[i], #[trigger] r[i])
}

/// `r` is `a` with every entry times `k`.
pub open spec fn is_scaled_matrix<T: Scalar>(a: Seq<Seq<T>>, k: T, r: Seq<Seq<T>>) -> bool {
    &&& r.len() == a.len()
    &&& forall|i: int| 0 <= i < a.len() ==> is_scaled(a[i], k, #[trigger] r[i])
}

/// `r` is the transpose of `a`, which has `rows` rows and `cols` columns:
/// row `j` of `r` is column `j` of `a`.
pub open spec fn is_transpose<T>(a: Seq<Seq<T>>, cols: int, r: Seq<Seq<T>>) -> bool {
    &&& r.len() == cols
    &&& forall|j: int| 0 <= j < cols ==> #[trigger] r[j] == column(a, j)
}

/// Every entry of `r` is the dot product of a row of `a` with a column of
/// `b`: entry `(i, j)` sums `a[i][k] * b[k][j]` with `k` increasing.
pub open spec fn is_matrix_product<T: Scalar>(
    a: Seq<Seq<T>>,
    b: Seq<Seq<T>>,
    r: Seq<Seq<T>>,
) -> bool {
    &&& r.len() == a.len()
    &&& forall|i: int, j: int|
        0 <= i < r.len() && 0 <= j < r[i].len() ==> is_dot_range(
            a[i],
            column(b, j),
            0,
            b.len() as int,
            #[trigger] r[i][j],
        )
}

/// Transposing twice gives the matrix back.
pub proof fn law_transpose_twice<T>(
    a: Seq<Seq<T>>,
    rows: int,
    cols: int,
    once: Seq<Seq<T>>,
    twice: Seq<Seq<T>>,
)
    requires
        has_shape(a, rows, cols),
        is_transpose(a, cols, once),
        is_transpose(once, rows, twice),
    ensures
        twice == a,
{
    assert forall|i: int| 0 <= i < rows implies twice[i] == a[i] by {
        assert(twice[i] == column(once, i));
        assert forall|j: int| 0 <= j < cols implies column(once, i)[j] == a[i][j] by {
            assert(once[j] == column(a, j));
        }
        assert(column(once, i) =~= a[i]);
    }
    assert(twice =~= a);
}

/// A grid of `rows` rows of `cols` zeros.
pub(crate) fn zero_rows<T: Scalar>(rows: usize, cols: usize) -> (r: Vec<Vec<T>>)
    ensures
        has_shape(rows_of(r@), rows as int, cols as int),
        forall|i: int| 0 <= i < rows ==> is_zeros(#[trigger] rows_of(r@)[i]),
{
    let mut r: Vec<Vec<T>> = Vec::new();
    let mut i: usize = 0;
    while i < rows
        invariant
            i <= rows,
            r.len() == i,
            forall|a: int| 0 <= a < i ==> (#[trigger] r@[a]).len() == cols,
            forall|a: int| 0 <= a < i ==> is_zeros((#[trigger] r@[a])@),
        decreases rows - i,
    {
        r.push(zeros(cols));
        i += 1;
    }
    r
}

/// A dense matrix, stored row by row. All rows have the same length.
pub struct AlgebrustMatrix<T> {
    matrix: Vec<Vec<T>>,
}

impl<T> View for AlgebrustMatrix<T> {
    type V = Seq<Seq<T>>;

    closed spec fn view(&self) -> Seq<Seq<T>> {
        rows_of(self.matrix@)
    }
}

impl<T> AlgebrustMatrix<T> {
    /// The number of rows.
    pub open spec fn rows(&self) -> int {
        self@.len() as int
    }

    /// The number of columns: the length of the first row, and 0 for a
    /// matrix without rows.
    pub open spec fn cols(&self) -> int {
        if self@.len() > 0 {
            self@[0].len() as int
        } else {
            0
        }
    }

    /// Every row has `cols()` items. This holds of every matrix.
    #[verifier::type_invariant]
    pub open spec fn is_rectangular(&self) -> bool {
        has_shape(self@, self.rows(), self.cols())
    }
}

impl<T: Scalar> AlgebrustMatrix<T> {
    /// The matrix that holds the given rows, which all have `cols` items.
    pub(crate) fn from_rows(matrix: Vec<Vec<T>>, cols: usize) -> (r: Self)
        requires
            has_shape(rows_of(matrix@), matrix.len() as int, cols as int),
        ensures
            r@ == rows_of(matrix@),
    {
        AlgebrustMatrix { matrix }
    }

    /// A matrix with a copy of the given rows, which must all have the same
    /// length.
    pub fn new(matrix: &[&[T]]) -> (r: Self)
        requires
            forall|i: int| 0 <= i < matrix@.len() ==> (#[trigger] matrix@[i])@.len() == matrix@[0]@.len(),
        ensures
            r@.len() == matrix@.len(),
            forall|i: int| 0 <= i < matrix@.len() ==> #[trigger] r@[i] == matrix@[i]@,
    {
        let mut rows: Vec<Vec<T>> = Vec::new();
        let mut i: usize = 0;
        while i < matrix.len()
            invariant
                i <= matrix.len(),
                rows.len() == i,
                forall|a: int| 0 <= a < i ==> (#[trigger] rows@[a])@ == matrix@[a]@,
            decreases matrix.len() - i,
        {
            rows.push(copy_slice(matrix[i]));
            i += 1;
        }
        AlgebrustMatrix { matrix: rows }
    }

    /// A matrix of `size.0` rows and `size.1` columns, every entry a zero.
    pub fn new_zeros(size: (usize, usize)) -> (r: Self)
        ensures
            has_shape(r@, size.0 as int, size.1 as int),
            forall|i: int| 0 <= i < size.0 ==> is_zeros(#[trigger] r@[i]),
    {
        AlgebrustMatrix { matrix: zero_rows(size.0, size.1) }
    }

    /// The `n` by `n` identity matrix.
    pub fn new_identity(n: usize) -> (r: Self)
        ensures
            is_identity(r@, n as int),
    {
        let matrix = Self::get_identity_matrix(n);
        AlgebrustMatrix { matrix }
    }

    /// The dimensions `(rows, columns)` of a matrix with at least one row.
    pub fn size(&self) -> (r: (usize, usize))
        requires
            self.rows() > 0,
        ensures
            r.0 == self.rows(),
            r.1 == self.cols(),
    {
        (self.matrix.len(), self.matrix[0].len())
    }

    /// The rows, as stored.
    pub fn matrix_ref(&self) -> (r: &Vec<Vec<T>>)
        ensures
            rows_of(r@) == self@,
    {
        &self.matrix
    }

    /// Copies column `column_index` out of the matrix.
    pub(crate) fn get_column(&self, column_index: usize) -> (r: Vec<T>)
        requires
            column_index < self.cols(),
        ensures
            r@ == column(self@, column_index as int),
    {
        proof {
            use_type_invariant(self);
        }
        let mut r: Vec<T> = Vec::new();
        let mut i: usize = 0;
        while i < self.matrix.len()
            invariant
                i <= self.matrix.len(),
                column_index < self.cols(),
                has_shape(self@, self.rows(), self.cols()),
                r@ == column(self@, column_index as int).take(i as int),
            decreases self.matrix.len() - i,
        {
            assert(self@[i as int].len() == self.cols());
            r.push(self.matrix[i][column_index]);
            i += 1;
        }
        r
    }

    /// The rows of the `n` by `n` identity matrix.
    pub(crate) fn get_identity_matrix(n: usize) -> (r: Vec<Vec<T>>)
        ensures
            is_identity(rows_of(r@), n as int),
    {
        let mut matrix: Vec<Vec<T>> = Vec::new();
        let mut i: usize = 0;
        while i < n
            invariant
                i <= n,
                matrix.len() == i,
                forall|a: int| 0 <= a < i ==> (#[trigger] matrix@[a]).len() == n,
                forall|a: int, b: int|
                    #![trigger matrix@[a]@[b]]
                    0 <= a < i && 0 <= b < n ==> if a == b {
                        is_one(matrix@[a]@[b])
                    } else {
                        is_zero(matrix@[a]@[b])
                    },
            decreases n - i,
        {
            let mut row: Vec<T> = Vec::new();
            let mut j: usize = 0;
            while j < n
                invariant
                    j <= n,
                    i < n,
                    row.len() == j,
                    forall|b: int|
                        #![trigger row@[b]]
                        0 <= b < j ==> if i == b {
                            is_one(row@[b])
                        } else {
                            is_zero(row@[b])
                        },
                decreases n - j,
            {
                if i == j {
                    row.push(T::one());
                } else {
                    row.push(T::zero());
                }
                j += 1;
            }
            matrix.push(row);
            i += 1;
        }
        proof {
            let m = rows_of(matrix@);
            assert forall|a: int, b: int|
                #![trigger m[a][b]]
                0 <= a < n && 0 <= b < n implies if a == b {
                is_one(m[a][b])
            } else {
                is_zero(m[a][b])
            } by {
                assert(m[a][b] == matrix@[a]@[b]);
            }
        }
        matrix
    }

    /// The entrywise sum of two matrices of the same dimensions.
    pub fn addition(&self, other: &AlgebrustMatrix<T>) -> (r: AlgebrustMatrix<T>)
        requires
            self.rows() > 0,
            self.rows() == other.rows(),
            self.cols() == other.cols(),
        ensures
            has_shape(r@, self.rows(), self.cols()),
            is_entrywise_sum(self@, other@, r@),
    {
        proof {
            use_type_invariant(self);
            use_type_invariant(other);
        }
        let (n, m) = self.size();
        let mut matrix: Vec<Vec<T>> = Vec::new();
        let mut i: usize = 0;
        while i < n
            invariant
                i <= n,
                has_shape(self@, n as int, m as int),
                has_shape(other@, n as int, m as int),
                matrix.len() == i,
                forall|a: int| 0 <= a < i ==> is_itemwise_sum(self@[a], other@[a], (#[trigger] matrix@[a])@),
            decreases n - i,
        {
            assert(self@[i as int].len() == m && other@[i as int].len() == m);
            matrix.push(sum_of_rows(&self.matrix[i], &other.matrix[i]));
            i += 1;
        }
        let r = AlgebrustMatrix { matrix };
        assert forall|a: int| 0 <= a < n implies is_itemwise_sum(self@[a], other@[a], #[trigger] r@[a]) by {
            assert(r@[a] == matrix@[a]@);
        }
        r
    }

    /// The entrywise difference of two matrices of the same dimensions.
    pub fn subtraction(&self, other: &AlgebrustMatrix<T>) -> (r: AlgebrustMatrix<T>)
        requires
            self.rows() > 0,
            self.rows() == other.rows(),
            self.cols() == other.cols(),
        ensures
            has_shape(r@, self.rows(), self.cols()),
            is_entrywise_difference(self@, other@, r@),
    {
        proof {
            use_type_invariant(self);
            use_type_invariant(other);
        }
        let (n, m) = self.size();
        let mut matrix: Vec<Vec<T>> = Vec::new();
        let mut i: usize = 0;
        while i < n
            invariant
                i <= n,
                has_shape(self@, n as int, m as int),
                has_shape(other@, n as int, m as int),
                matrix.len() == i,
                forall|a: int|
                    0 <= a < i ==> is_itemwise_difference(self@[a], other@[a], (#[trigger] matrix@[a])@),
            decreases n - i,
        {
            assert(self@[i as int].len() == m && other@[i as int].len() == m);
            matrix.push(difference_of_rows(&self.matrix[i], &other.matrix[i]));
            i += 1;
        }
        let r = AlgebrustMatrix { matrix };
        assert forall|a: int| 0 <= a < n implies is_itemwise_difference(
            self@[a],
            other@[a],
            #[trigger] r@[a],
        ) by {
            assert(r@[a] == matrix@[a]@);
        }
        r
    }

    /// Every entry times `scaler`.
    pub fn scalar_multiplication(&self, scaler: T) -> (r: AlgebrustMatrix<T>)
        ensures
            has_shape(r@, self.rows(), self.cols()),
            is_scaled_matrix(self@, scaler, r@),
    {
        proof {
            use_type_invariant(self);
        }
        let n = self.matrix.len();
        let mut matrix: Vec<Vec<T>> = Vec::new();
        let mut i: usize = 0;
        while i < n
            invariant
                i <= n,
                n == self.rows(),
                matrix.len() == i,
                forall|a: int| 0 <= a < i ==> is_scaled(self@[a], scaler, (#[trigger] matrix@[a])@),
            decreases n - i,
        {
            matrix.push(scaled_row(&self.matrix[i], scaler));
            i += 1;
        }
        let r = AlgebrustMatrix { matrix };
        assert forall|a: int| 0 <= a < n implies is_scaled(self@[a], scaler, #[trigger] r@[a]) by {
            assert(r@[a] == matrix@[a]@);
        }
        r
    }

    /// The transpose: entry `(j, i)` of the result is entry `(i, j)` of
    /// `self`.
    pub fn transpose(&self) -> (r: AlgebrustMatrix<T>)
        requires
            self.rows() > 0,
        ensures
            has_shape(r@, self.cols(), self.rows()),
            is_transpose(self@, self.cols(), r@),
    {
        proof {
            use_type_invariant(self);
        }
        let (n, m) = self.size();
        let mut matrix: Vec<Vec<T>> = Vec::new();
        let mut j: usize = 0;
        while j < m
            invariant
                j <= m,
                n == self.rows(),
                m == self.cols(),
                matrix.len() == j,
                forall|b: int| 0 <= b < j ==> (#[trigger] matrix@[b])@ == column(self@, b),
            decreases m - j,
        {
            let col = self.get_column(j);
            matrix.push(col);
            j += 1;
        }
        let r = AlgebrustMatrix { matrix };
        assert forall|b: int| 0 <= b < m implies #[trigger] r@[b] == column(self@, b) by {
            assert(r@[b] == matrix@[b]@);
        }
        r
    }

    /// The matrix product `self * other`.
    pub fn multiplication(&self, other: &AlgebrustMatrix<T>) -> (r: AlgebrustMatrix<T>)
        requires
            self.rows() > 0,
            other.rows() > 0,
            self.cols() == other.rows(),
        ensures
            has_shape(r@, self.rows(), other.cols()),
            is_matrix_product(self@, other@, r@),
    {
        proof {
            use_type_invariant(self);
            use_type_invariant(other);
        }
        let (n, o) = self.size();
        let (_, m) = other.size();
        let mut matrix: Vec<Vec<T>> = Vec::new();
        let mut i: usize = 0;
        while i < n
            invariant
                i <= n,
                n == self.rows(),
                o == self.cols(),
                o == other.rows(),
                m == other.cols(),
                has_shape(self@, self.rows(), self.cols()),
                matrix.len() == i,
                forall|a: int| 0 <= a < i ==> (#[trigger] matrix@[a]).len() == m,
                forall|a: int, b: int|
                    0 <= a < i && 0 <= b < m ==> is_dot_range(
                        self@[a],
                        column(other@, b),
                        0,
                        o as int,
                        #[trigger] matrix@[a]@[b],
                    ),
            decreases n - i,
        {
            let mut row: Vec<T> = Vec::new();
            let mut j: usize = 0;
            while j < m
                invariant
                    j <= m,
                    i < n,
                    n == self.rows(),
                    o == self.cols(),
                    o == other.rows(),
                    m == other.cols(),
                    has_shape(self@, self.rows(), self.cols()),
                    row.len() == j,
                    forall|b: int|
                        0 <= b < j ==> is_dot_range(
                            self@[i as int],
                            column(other@, b),
                            0,
                            o as int,
                            #[trigger] row@[b],
                        ),
                decreases m - j,
            {
                let col = other.get_column(j);
                assert(self@[i as int].len() == o);
                let entry = dot_range(&self.matrix[i], &col, 0, o);
                row.push(entry);
                j += 1;
            }
            matrix.push(row);
            i += 1;
        }
        let r = AlgebrustMatrix { matrix };
        assert(is_matrix_product(self@, other@, r@)) by {
            assert forall|a: int, b: int| 0 <= a < r@.len() && 0 <= b < r@[a].len() implies is_dot_range(
                self@[a],
                column(other@, b),
                0,
                other@.len() as int,
                #[trigger] r@[a][b],
            ) by {
                assert(r@[a][b] == matrix@[a]@[b]);
            }
        }
        r
    }
}

impl<T: Scalar + UniformSample> AlgebrustMatrix<T> {
    /// A matrix of `size.0` rows and `size.1` columns, every entry one
    /// sample from `[low, high)`.
    pub fn new_rand(size: (usize, usize), low: T, high: T) -> (r: Self)
        ensures
            has_shape(r@, size.0 as int, size.1 as int),
            forall|i: int| 0 <= i < size.0 ==> is_samples(low, high, #[trigger] r@[i]),
    {
        let mut matrix: Vec<Vec<T>> = Vec::new();
        let mut i: usize = 0;
        while i < size.0
            invariant
                i <= size.0,
                matrix.len() == i,
                forall|a: int| 0 <= a < i ==> (#[trigger] matrix@[a]).len() == size.1,
                forall|a: int| 0 <= a < i ==> is_samples(low, high, (#[trigger] matrix@[a])@),
            decreases size.0 - i,
        {
            matrix.push(sample_row(size.1, low, high));
            i += 1;
        }
        let r = AlgebrustMatrix { matrix };
        assert forall|a: int| 0 <= a < size.0 implies is_samples(low, high, #[trigger] r@[a]) by {
            assert(r@[a] == matrix@[a]@);
        }
        r
    }
}

} // verus!
