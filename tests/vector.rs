use concurrency::{MatrixError, Vector};

#[test]
fn dot_product_of_equal_lengths() {
    let u = Vector::new(vec![1, 2, 3]);
    let v = Vector::new(vec![4, -5, 6]);
    assert_eq!(u.dot_product(&v), Ok(4 - 10 + 18));
}

#[test]
fn dot_product_of_empty_vectors_is_zero() {
    let u = Vector::new(vec![]);
    let v = Vector::new(vec![]);
    assert_eq!(u.dot_product(&v), Ok(0));
}

#[test]
fn dot_product_of_unequal_lengths_fails() {
    let u = Vector::new(vec![1, 2, 3]);
    let v = Vector::new(vec![1, 2]);
    assert_eq!(u.dot_product(&v), Err(MatrixError::DimensionMismatch));
    assert_eq!(v.dot_product(&u), Err(MatrixError::DimensionMismatch));
}

#[test]
fn dot_range_check() {
    let u = Vector::new(vec![i64::MAX, 1]);
    let v = Vector::new(vec![1, 1]);
    assert!(!u.dot_in_range(&v));
    let w = Vector::new(vec![i64::MIN / 2, i64::MIN / 2]);
    assert!(w.dot_in_range(&v));
    assert_eq!(w.dot_product(&v), Ok(i64::MIN));
    assert_eq!(u.len(), 2);
}
