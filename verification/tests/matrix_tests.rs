use algebrust::{AlgebrustMatrix, Scalar, UniformSample};
use rand::distributions::Uniform;
use rand::Rng;

#[derive(Clone, Copy, Debug, PartialEq)]
struct Real(f64);

impl Scalar for Real {
    fn zero() -> Self {
        Real(0.0)
    }

    fn one() -> Self {
        Real(1.0)
    }

    fn plus(self, rhs: Self) -> Self {
        Real(self.0 + rhs.0)
    }

    fn minus(self, rhs: Self) -> Self {
        Real(self.0 - rhs.0)
    }

    fn times(self, rhs: Self) -> Self {
        Real(self.0 * rhs.0)
    }

    fn divided_by(self, rhs: Self) -> Self {
        Real(self.0 / rhs.0)
    }

    fn square_root(self) -> Self {
        Real(self.0.sqrt())
    }
}

impl UniformSample for Real {
    fn sample(low: Self, high: Self) -> Self {
        Real(rand::thread_rng().sample(Uniform::new(low.0, high.0)))
    }
}

fn matrix(rows: &[&[f64]]) -> AlgebrustMatrix<Real> {
    let wrapped: Vec<Vec<Real>> = rows
        .iter()
        .map(|row| row.iter().map(|a| Real(*a)).collect())
        .collect();
    let borrowed: Vec<&[Real]> = wrapped.iter().map(|row| row.as_slice()).collect();
    AlgebrustMatrix::new(&borrowed)
}

fn plain(m: &AlgebrustMatrix<Real>) -> Vec<Vec<f64>> {
    m.matrix_ref()
        .iter()
        .map(|row| row.iter().map(|a| a.0).collect())
        .collect()
}

fn close(a: &Vec<Vec<f64>>, b: &Vec<Vec<f64>>, tolerance: f64) -> bool {
    a.len() == b.len()
        && a.iter().zip(b).all(|(x, y)| {
            x.len() == y.len() && x.iter().zip(y).all(|(p, q)| (p - q).abs() <= tolerance)
        })
}

#[test]
fn test_matrix_new() {
    let mat = matrix(&[&[1.0, 2.0], &[3.0, 4.0]]);
    assert_eq!(plain(&mat), vec![vec![1.0, 2.0], vec![3.0, 4.0]]);
}

#[test]
fn test_matrix_new_rand() {
    let mat = AlgebrustMatrix::new_rand((2, 3), Real(0.0), Real(1.0));
    assert_eq!(mat.size(), (2, 3));
}

#[test]
fn test_matrix_new_zeros() {
    let mat: AlgebrustMatrix<Real> = AlgebrustMatrix::new_zeros((2, 3));
    assert_eq!(plain(&mat), vec![vec![0.0, 0.0, 0.0], vec![0.0, 0.0, 0.0]]);
}

#[test]
fn test_matrix_new_identity() {
    let mat: AlgebrustMatrix<Real> = AlgebrustMatrix::new_identity(3);
    assert_eq!(
        plain(&mat),
        vec![vec![1.0, 0.0, 0.0], vec![0.0, 1.0, 0.0], vec![0.0, 0.0, 1.0]]
    );
}

#[test]
fn test_matrix_addition() {
    let mat1 = matrix(&[&[1.0, 2.0], &[3.0, 4.0]]);
    let mat2 = matrix(&[&[5.0, 6.0], &[7.0, 8.0]]);
    let result = mat1.addition(&mat2);
    assert_eq!(plain(&result), vec![vec![6.0, 8.0], vec![10.0, 12.0]]);
}

#[test]
fn test_matrix_subtraction() {
    let mat1 = matrix(&[&[1.0, 2.0], &[3.0, 4.0]]);
    let mat2 = matrix(&[&[5.0, 6.0], &[7.0, 8.0]]);
    let result = mat1.subtraction(&mat2);
    assert_eq!(plain(&result), vec![vec![-4.0, -4.0], vec![-4.0, -4.0]]);
}

#[test]
fn test_matrix_multiplication() {
    let mat1 = matrix(&[&[1.0, 2.0], &[3.0, 4.0]]);
    let mat2 = matrix(&[&[5.0, 6.0], &[7.0, 8.0]]);
    let result = mat1.multiplication(&mat2);
    assert_eq!(plain(&result), vec![vec![19.0, 22.0], vec![43.0, 50.0]]);
}

#[test]
fn test_matrix_scalar_multiplication() {
    let mat = matrix(&[&[1.0, 2.0], &[3.0, 4.0]]);
    let result = mat.scalar_multiplication(Real(2.0));
    assert_eq!(plain(&result), vec![vec![2.0, 4.0], vec![6.0, 8.0]]);
}

#[test]
fn test_matrix_transpose() {
    let mat = matrix(&[&[1.0, 2.0, 3.0], &[4.0, 5.0, 6.0]]);
    let result = mat.transpose();
    assert_eq!(
        plain(&result),
        vec![vec![1.0, 4.0], vec![2.0, 5.0], vec![3.0, 6.0]]
    );
}

#[test]
fn test_matrix_lu_decomposition() {
    let mat = matrix(&[&[2.0, 3.0], &[5.0, 4.0]]);
    let (l, u) = mat.lu_decomposition();
    assert_eq!(plain(&l), vec![vec![1.0, 0.0], vec![2.5, 1.0]]);
    assert_eq!(plain(&u), vec![vec![2.0, 3.0], vec![0.0, -3.5]]);
}

#[test]
fn test_matrix_determinant() {
    let mat = matrix(&[&[2.0, 3.0], &[5.0, 4.0]]);
    let result = mat.determinant();
    assert_eq!(result, Real(-7.0));
}

#[test]
fn test_matrix_inverse() {
    let mat = matrix(&[&[4.0, 7.0], &[2.0, 6.0]]);
    let result = mat.inverse();
    assert_eq!(
        plain(&result),
        vec![
            vec![0.6000000000000001, -0.7000000000000001],
            vec![-0.2, 0.4]
        ]
    );
}

#[test]
fn test_matrix_new_from_literal_rows() {
    let mat = AlgebrustMatrix::new(&[&[Real(1.0), Real(2.0)], &[Real(3.0), Real(4.0)]]);
    assert_eq!(
        mat.matrix_ref(),
        &vec![vec![Real(1.0), Real(2.0)], vec![Real(3.0), Real(4.0)]]
    );
    assert_eq!(mat.size(), (2, 2));
}

#[test]
fn test_matrix_new_rand_entries_in_range() {
    let mat = AlgebrustMatrix::new_rand((4, 5), Real(-2.0), Real(3.0));
    assert_eq!(mat.size(), (4, 5));
    for row in plain(&mat) {
        assert_eq!(row.len(), 5);
        for a in row {
            assert!(-2.0 <= a && a < 3.0);
        }
    }
}

#[test]
fn test_matrix_new_zeros_without_rows() {
    let mat: AlgebrustMatrix<Real> = AlgebrustMatrix::new_zeros((0, 3));
    assert_eq!(plain(&mat), Vec::<Vec<f64>>::new());
}

#[test]
fn test_matrix_size_of_single_row() {
    let mat = matrix(&[&[7.0, 8.0, 9.0]]);
    assert_eq!(mat.size(), (1, 3));
}

#[test]
fn test_matrix_multiplication_rectangular() {
    let a = matrix(&[&[1.0, 2.0, 3.0], &[4.0, 5.0, 6.0]]);
    let b = matrix(&[&[7.0, 8.0], &[9.0, 10.0], &[11.0, 12.0]]);
    let result = a.multiplication(&b);
    assert_eq!(result.size(), (2, 2));
    assert_eq!(plain(&result), vec![vec![58.0, 64.0], vec![139.0, 154.0]]);
}

#[test]
fn test_matrix_multiplication_sums_in_index_order() {
    let a = matrix(&[&[1.0e16, 1.0, -1.0e16]]);
    let b = matrix(&[&[1.0], &[1.0], &[1.0]]);
    assert_eq!(plain(&a.multiplication(&b)), vec![vec![0.0]]);
    let c = matrix(&[&[1.0e16, -1.0e16, 1.0]]);
    assert_eq!(plain(&c.multiplication(&b)), vec![vec![1.0]]);
}

#[test]
fn test_matrix_multiplication_by_identity() {
    let a = matrix(&[&[1.5, -2.0], &[0.25, 8.0]]);
    let identity: AlgebrustMatrix<Real> = AlgebrustMatrix::new_identity(2);
    assert_eq!(plain(&a.multiplication(&identity)), plain(&a));
    assert_eq!(plain(&identity.multiplication(&a)), plain(&a));
}

#[test]
fn test_matrix_transpose_twice() {
    let a = matrix(&[&[1.0, 2.0, 3.0], &[4.0, 5.0, 6.0]]);
    assert_eq!(plain(&a.transpose().transpose()), plain(&a));
}

#[test]
fn test_matrix_addition_then_subtraction() {
    let a = matrix(&[&[1.0, 2.0], &[3.0, 4.0]]);
    let b = matrix(&[&[0.5, 0.25], &[8.0, 16.0]]);
    assert_eq!(plain(&a.addition(&b).subtraction(&b)), plain(&a));
}

#[test]
fn test_matrix_lu_decomposition_three_by_three() {
    let a = matrix(&[&[2.0, 1.0, 1.0], &[4.0, 3.0, 3.0], &[8.0, 7.0, 9.0]]);
    let (l, u) = a.lu_decomposition();
    assert_eq!(
        plain(&l),
        vec![vec![1.0, 0.0, 0.0], vec![2.0, 1.0, 0.0], vec![4.0, 3.0, 1.0]]
    );
    assert_eq!(
        plain(&u),
        vec![vec![2.0, 1.0, 1.0], vec![0.0, 1.0, 1.0], vec![0.0, 0.0, 2.0]]
    );
    assert_eq!(plain(&l.multiplication(&u)), plain(&a));
}

#[test]
fn test_matrix_lu_decomposition_one_by_one() {
    let a = matrix(&[&[3.0]]);
    let (l, u) = a.lu_decomposition();
    assert_eq!(plain(&l), vec![vec![1.0]]);
    assert_eq!(plain(&u), vec![vec![3.0]]);
}

#[test]
fn test_matrix_lu_decomposition_reconstructs() {
    let a = matrix(&[&[4.0, 3.0, 2.0], &[1.0, 3.0, 7.0], &[9.0, 0.5, 6.0]]);
    let (l, u) = a.lu_decomposition();
    let lower = plain(&l);
    let upper = plain(&u);
    for i in 0..3 {
        assert_eq!(lower[i][i], 1.0);
        for j in (i + 1)..3 {
            assert_eq!(lower[i][j], 0.0);
            assert!(upper[j][i].abs() <= 1.0e-12);
        }
    }
    assert!(close(&plain(&l.multiplication(&u)), &plain(&a), 1.0e-12));
}

#[test]
fn test_matrix_lu_decomposition_zero_pivot_is_not_an_error() {
    let a = matrix(&[&[0.0, 1.0], &[1.0, 1.0]]);
    let (l, u) = a.lu_decomposition();
    let lower = plain(&l);
    let upper = plain(&u);
    assert_eq!(lower[0], vec![1.0, 0.0]);
    assert!(lower[1][0].is_infinite());
    assert_eq!(lower[1][1], 1.0);
    assert_eq!(upper[0], vec![0.0, 1.0]);
    assert!(upper[1][0].is_nan());
    assert!(upper[1][1].is_infinite());
}

#[test]
fn test_matrix_determinant_three_by_three() {
    let a = matrix(&[&[2.0, 1.0, 1.0], &[4.0, 3.0, 3.0], &[8.0, 7.0, 9.0]]);
    assert_eq!(a.determinant(), Real(4.0));
}

#[test]
fn test_matrix_determinant_of_identity() {
    let identity: AlgebrustMatrix<Real> = AlgebrustMatrix::new_identity(4);
    assert_eq!(identity.determinant(), Real(1.0));
}

#[test]
fn test_matrix_determinant_of_singular_matrix() {
    let a = matrix(&[&[0.0, 1.0], &[1.0, 1.0]]);
    assert!(a.determinant().0.is_nan());
}

#[test]
fn test_matrix_inverse_times_matrix() {
    let a = matrix(&[&[4.0, 7.0], &[2.0, 6.0]]);
    let inverse = a.inverse();
    let identity: AlgebrustMatrix<Real> = AlgebrustMatrix::new_identity(2);
    assert!(close(&plain(&inverse), &vec![vec![0.6, -0.7], vec![-0.2, 0.4]], 1.0e-12));
    assert!(close(&plain(&a.multiplication(&inverse)), &plain(&identity), 1.0e-12));
}

#[test]
fn test_matrix_inverse_three_by_three() {
    let a = matrix(&[&[2.0, 0.0, 0.0], &[0.0, 4.0, 0.0], &[0.0, 0.0, 8.0]]);
    assert_eq!(
        plain(&a.inverse()),
        vec![vec![0.5, 0.0, 0.0], vec![0.0, 0.25, 0.0], vec![0.0, 0.0, 0.125]]
    );
}

#[test]
fn test_matrix_inverse_of_lower_triangular() {
    let a = matrix(&[&[1.0, 0.0], &[2.0, 1.0]]);
    assert_eq!(plain(&a.inverse()), vec![vec![1.0, 0.0], vec![-2.0, 1.0]]);
}

#[test]
fn test_matrix_inverse_of_singular_matrix() {
    let a = matrix(&[&[1.0, 2.0], &[2.0, 4.0]]);
    let inverse = plain(&a.inverse());
    assert!(inverse.iter().flatten().any(|x| !x.is_finite()));
}

#[test]
fn test_matrix_scalar_multiplication_without_rows() {
    let a: AlgebrustMatrix<Real> = AlgebrustMatrix::new_zeros((0, 0));
    assert_eq!(plain(&a.scalar_multiplication(Real(3.0))), Vec::<Vec<f64>>::new());
}

#[test]
fn test_matrix_lu_decomposition_upper_factor_rounds() {
    let a = matrix(&[&[49.0, 1.0], &[1.0, 1.0]]);
    let (l, u) = a.lu_decomposition();
    assert_eq!(plain(&l), vec![vec![1.0, 0.0], vec![0.02040816326530612, 1.0]]);
    assert_eq!(plain(&u)[0], vec![49.0, 1.0]);
    assert_eq!(plain(&u)[1][0], 1.1102230246251565e-16);
}

#[test]
fn test_matrix_lu_decomposition_first_pivot() {
    let a = matrix(&[&[4.0, 3.0, 2.0], &[1.0, 3.0, 7.0], &[9.0, 0.5, 6.0]]);
    let (l, u) = a.lu_decomposition();
    assert_eq!(plain(&u)[0], vec![4.0, 3.0, 2.0]);
    assert_eq!(plain(&l)[1][0], 0.25);
    assert_eq!(plain(&l)[2][0], 2.25);
}
