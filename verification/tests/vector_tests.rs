use algebrust::{AlgebrustVector, Scalar, UniformSample};
use rand::distributions::Uniform;
use rand::Rng;

#[derive(Clone, Copy, Debug, PartialEq)]
struct Real(f64);

impl Scalar for Real {
    fn zero() -> Self {
        Real(0.0)
    }

    fn one() -> Self {
        Real(1.0)
    }

    fn plus(self, rhs: Self) -> Self {
        Real(self.0 + rhs.0)
    }

    fn minus(self, rhs: Self) -> Self {
        Real(self.0 - rhs.0)
    }

    fn times(self, rhs: Self) -> Self {
        Real(self.0 * rhs.0)
    }

    fn divided_by(self, rhs: Self) -> Self {
        Real(self.0 / rhs.0)
    }

    fn square_root(self) -> Self {
        Real(self.0.sqrt())
    }
}

impl UniformSample for Real {
    fn sample(low: Self, high: Self) -> Self {
        Real(rand::thread_rng().sample(Uniform::new(low.0, high.0)))
    }
}

fn vector(items: &[f64]) -> AlgebrustVector<Real> {
    let wrapped: Vec<Real> = items.iter().map(|a| Real(*a)).collect();
    AlgebrustVector::new(&wrapped)
}

fn plain(v: &AlgebrustVector<Real>) -> Vec<f64> {
    v.vector_ref().iter().map(|a| a.0).collect()
}

#[test]
fn test_vector_new() {
    let vec = vector(&[1.0, 2.0, 3.0]);
    assert_eq!(plain(&vec), vec![1.0, 2.0, 3.0]);
}

#[test]
fn test_vector_new_rand() {
    let vec = AlgebrustVector::new_rand(3, Real(0.0), Real(1.0));
    assert_eq!(vec.len(), 3);
}

#[test]
fn test_vector_new_zeros() {
    let vec: AlgebrustVector<Real> = AlgebrustVector::new_zeros(3);
    assert_eq!(plain(&vec), vec![0.0, 0.0, 0.0]);
}

#[test]
fn test_vector_addition() {
    let vec1 = vector(&[1.0, 2.0, 3.0]);
    let vec2 = vector(&[4.0, 5.0, 6.0]);
    let result = vec1.addition(&vec2);
    assert_eq!(plain(&result), vec![5.0, 7.0, 9.0]);
}

#[test]
fn test_vector_subtraction() {
    let vec1 = vector(&[1.0, 2.0, 3.0]);
    let vec2 = vector(&[4.0, 5.0, 6.0]);
    let result = vec1.subtraction(&vec2);
    assert_eq!(plain(&result), vec![-3.0, -3.0, -3.0]);
}

#[test]
fn test_vector_dot_product() {
    let vec1 = vector(&[1.0, 2.0, 3.0]);
    let vec2 = vector(&[4.0, 5.0, 6.0]);
    let result = vec1.dot_product(&vec2);
    assert_eq!(result, Real(32.0));
}

#[test]
fn test_vector_scalar_multiplication() {
    let vec = vector(&[1.0, 2.0, 3.0]);
    let result = vec.scalar_multiplication(Real(2.0));
    assert_eq!(plain(&result), vec![2.0, 4.0, 6.0]);
}

#[test]
fn test_vector_magnitude() {
    let vec = vector(&[3.0, 4.0]);
    let result = vec.magnitude();
    assert_eq!(result, Real(5.0));
}

#[test]
fn test_vector_normalization() {
    let vec = vector(&[3.0, 4.0]);
    let result = vec.normalization();
    assert_eq!(plain(&result), vec![0.6, 0.8]);
}

#[test]
fn test_vector_cross_product() {
    let vec1 = vector(&[1.0, 0.0, 0.0]);
    let vec2 = vector(&[0.0, 1.0, 0.0]);
    let result = vec1.cross_product(&vec2);
    assert_eq!(plain(&result), vec![0.0, 0.0, 1.0]);
}

#[test]
fn test_vector_new_from_literal_items() {
    let vec = AlgebrustVector::new(&[Real(1.0), Real(2.0), Real(3.0)]);
    assert_eq!(vec.vector_ref(), &vec![Real(1.0), Real(2.0), Real(3.0)]);
    assert_eq!(vec.len(), 3);
}

#[test]
fn test_vector_empty() {
    let vec = vector(&[]);
    assert_eq!(vec.len(), 0);
    assert_eq!(vec.dot_product(&vector(&[])), Real(0.0));
    assert_eq!(vec.magnitude(), Real(0.0));
    assert_eq!(plain(&vec.addition(&vector(&[]))), Vec::<f64>::new());
}

#[test]
fn test_vector_new_rand_items_in_range() {
    let vec = AlgebrustVector::new_rand(50, Real(-1.0), Real(2.0));
    assert_eq!(vec.len(), 50);
    for a in plain(&vec) {
        assert!(-1.0 <= a && a < 2.0);
    }
}

#[test]
fn test_vector_new_rand_without_items() {
    let vec = AlgebrustVector::new_rand(0, Real(0.0), Real(1.0));
    assert_eq!(vec.len(), 0);
}

#[test]
fn test_vector_addition_then_subtraction() {
    let a = vector(&[1.0, -2.5, 1024.0]);
    let b = vector(&[0.5, 4.0, -8.0]);
    assert_eq!(plain(&a.addition(&b).subtraction(&b)), plain(&a));
}

#[test]
fn test_vector_addition_then_subtraction_rounds() {
    let a = vector(&[1.0]);
    let b = vector(&[1.0e16]);
    assert_eq!(plain(&a.addition(&b).subtraction(&b)), vec![0.0]);
}

#[test]
fn test_vector_dot_product_commutes() {
    let a = vector(&[0.1, 0.2, 0.3, 1.0e10]);
    let b = vector(&[3.0, -7.0, 0.7, 1.0e-10]);
    assert_eq!(a.dot_product(&b), b.dot_product(&a));
}

#[test]
fn test_vector_dot_product_sums_in_index_order() {
    let ones = vector(&[1.0, 1.0, 1.0]);
    assert_eq!(vector(&[1.0e16, 1.0, -1.0e16]).dot_product(&ones), Real(0.0));
    assert_eq!(vector(&[1.0e16, -1.0e16, 1.0]).dot_product(&ones), Real(1.0));
}

#[test]
fn test_vector_magnitude_of_normalization() {
    let v = vector(&[1.0, 2.0, 3.0, 4.0]);
    let m = v.normalization().magnitude();
    assert!((m.0 - 1.0).abs() <= 1.0e-12);
}

#[test]
fn test_vector_normalization_of_zero_vector() {
    let v = vector(&[0.0, 0.0]);
    assert!(plain(&v.normalization()).iter().all(|a| a.is_nan()));
}

#[test]
fn test_vector_cross_product_formula() {
    let a = vector(&[1.0, 2.0, 3.0]);
    let b = vector(&[4.0, 5.0, 6.0]);
    assert_eq!(plain(&a.cross_product(&b)), vec![-3.0, 6.0, -3.0]);
    assert_eq!(plain(&b.cross_product(&a)), vec![3.0, -6.0, 3.0]);
}

#[test]
fn test_vector_scalar_multiplication_by_zero() {
    let v = vector(&[1.0, -2.0]);
    assert_eq!(plain(&v.scalar_multiplication(Real(0.0))), vec![0.0, -0.0]);
}
