use concurrency::{assemble, multiply, plan_jobs, product_in_range, Matrix, MatrixError, MsgOutput};

#[test]
fn test_matrix_multiply() {
    let a = Matrix::new(vec![1, 2, 3, 4, 5, 6], 2, 3);
    let b = Matrix::new(vec![1, 2, 3, 4, 5, 6], 3, 2);
    let c = multiply(&a, &b).unwrap();
    assert_eq!(c.col, 2);
    assert_eq!(c.row, 2);
    assert_eq!(c.debug_string(), "Matrix(row=2, col=2, {22 28, 49 64})");
}

#[test]
fn test_matrix_display() {
    let a = Matrix::new(vec![1, 2, 3, 4], 2, 2);
    let b = Matrix::new(vec![1, 2, 3, 4], 2, 2);
    let c = multiply(&a, &b).unwrap();
    assert_eq!(c.data, [7, 10, 15, 22]);
    assert_eq!(c.display_string(), "{7 10, 15 22}");
}

#[test]
#[should_panic]
fn test_a_can_not_multiply_b_panic() {
    let a = Matrix::new(vec![1, 2, 3, 4, 5, 6], 2, 3);
    let b = Matrix::new(vec![1, 2, 3, 4], 2, 2);
    let _c = multiply(&a, &b).unwrap();
}

#[test]
fn test_a_can_not_multiply_b() {
    let a = Matrix::new(vec![1, 2, 3, 4, 5, 6], 2, 3);
    let b = Matrix::new(vec![1, 2, 3, 4], 2, 2);
    let c = multiply(&a, &b);
    assert!(c.is_err());
}

#[test]
fn mismatch_is_dimension_error() {
    let a = Matrix::new(vec![1, 2, 3, 4, 5, 6], 2, 3);
    let b = Matrix::new(vec![1, 2, 3, 4], 2, 2);
    assert_eq!(multiply(&a, &b).err(), Some(MatrixError::DimensionMismatch));
    assert!(plan_jobs(&a, &b, 4).is_err());
}

#[test]
fn product_of_non_square_shapes() {
    // 1x3 times 3x1 and 3x1 times 1x3
    let a = Matrix::new(vec![1, -2, 3], 1, 3);
    let b = Matrix::new(vec![4, 5, -6], 3, 1);
    let c = multiply(&a, &b).unwrap();
    assert_eq!((c.row, c.col), (1, 1));
    assert_eq!(c.data, vec![4 - 10 - 18]);
    let d = multiply(&b, &a).unwrap();
    assert_eq!((d.row, d.col), (3, 3));
    assert_eq!(d.data, vec![4, -8, 12, 5, -10, 15, -6, 12, -18]);
    assert_eq!(d.display_string(), "{4 -8 12, 5 -10 15, -6 12 -18}");
}

#[test]
fn result_dimensions_follow_operands() {
    let a = Matrix::new(vec![1, 2, 3, 4, 5, 6, 7, 8], 4, 2);
    let b = Matrix::new(vec![1, 0, 2, 0, 1, 3], 2, 3);
    let c = multiply(&a, &b).unwrap();
    assert_eq!((c.row, c.col), (4, 3));
    assert_eq!(c.data.len(), 12);
    assert_eq!(c.data, vec![1, 2, 8, 3, 4, 18, 5, 6, 28, 7, 8, 38]);
}

#[test]
fn empty_inner_dimension_gives_zeros() {
    let a = Matrix::new(vec![], 2, 0);
    let b = Matrix::new(vec![], 0, 3);
    let c = multiply(&a, &b).unwrap();
    assert_eq!((c.row, c.col), (2, 3));
    assert_eq!(c.data, vec![0; 6]);
}

#[test]
fn empty_result() {
    let a = Matrix::new(vec![], 0, 2);
    let b = Matrix::new(vec![1, 2, 3, 4], 2, 2);
    let c = multiply(&a, &b).unwrap();
    assert_eq!((c.row, c.col), (0, 2));
    assert!(c.data.is_empty());
    assert_eq!(c.display_string(), "{}");
}

#[test]
fn repeated_multiplication_is_identical() {
    let a = Matrix::new(vec![3, -1, 4, 1, -5, 9, 2, 6, -5], 3, 3);
    let b = Matrix::new(vec![2, 7, -1, 8, 2, 8, 1, -8, 2], 3, 3);
    let first = multiply(&a, &b).unwrap();
    for _ in 0..10 {
        let again = multiply(&a, &b).unwrap();
        assert_eq!(again.data, first.data);
        assert_eq!((again.row, again.col), (first.row, first.col));
    }
}

#[test]
fn plan_routes_rows_round_robin() {
    let a = Matrix::new(vec![1, 2, 3, 4, 5, 6, 7, 8, 9, 10], 5, 2);
    let b = Matrix::new(vec![1, 2, 3, 4, 5, 6], 2, 3);
    let jobs = plan_jobs(&a, &b, 2).unwrap();
    assert_eq!(jobs.len(), 15);
    for (k, (worker, job)) in jobs.iter().enumerate() {
        assert_eq!(job.idx, k);
        assert_eq!(*worker, (k / 3) % 2);
    }
    // cell (1, 2): row [3, 4], column [3, 6]
    let (_, job) = &jobs[5];
    assert_eq!(job.row.get(0), 3);
    assert_eq!(job.row.get(1), 4);
    assert_eq!(job.col.get(0), 3);
    assert_eq!(job.col.get(1), 6);
    assert_eq!(job.run(), MsgOutput::new(5, 33));
}

#[test]
fn assemble_places_replies_by_index() {
    let replies = vec![
        Some(MsgOutput::new(3, 40)),
        Some(MsgOutput::new(0, 10)),
        Some(MsgOutput::new(2, 30)),
        Some(MsgOutput::new(1, 20)),
    ];
    let m = assemble(&replies, 2, 2).unwrap();
    assert_eq!(m.data, vec![10, 20, 30, 40]);
    assert_eq!((m.row, m.col), (2, 2));
}

#[test]
fn assemble_fails_on_missing_reply() {
    let replies = vec![Some(MsgOutput::new(0, 1)), None];
    assert_eq!(assemble(&replies, 1, 2).err(), Some(MatrixError::WorkerFailure));
}

#[test]
fn range_check_detects_overflow() {
    let a = Matrix::new(vec![i64::MAX, 1], 1, 2);
    let b = Matrix::new(vec![1, 1], 2, 1);
    assert!(!product_in_range(&a, &b));
    let c = Matrix::new(vec![i64::MAX, 0], 1, 2);
    assert!(product_in_range(&c, &b));
    assert_eq!(multiply(&c, &b).unwrap().data, vec![i64::MAX]);
}

#[test]
fn debug_and_display_of_negative_entries() {
    let m = Matrix::new(vec![-1, 0, i64::MIN, 100], 2, 2);
    assert_eq!(m.display_string(), "{-1 0, -9223372036854775808 100}");
    assert_eq!(m.debug_string(), "Matrix(row=2, col=2, {-1 0, -9223372036854775808 100})");
}
