use math_matrix::{Errors, Matrix};

#[test]
fn addition() {
    let a = Matrix::new(vec![45, 2, 65, 899, 6, 61], (3, 2)).expect("Impossible");
    let b = Matrix::new(vec![4, 87, 2, 99, 12, 44], (3, 2)).expect("Impossible");

    let sum = a.add(&b).expect("Impossible");
    assert_eq!(sum.order(), (3, 2));
    assert_eq!(sum.items(), vec![49, 89, 67, 998, 18, 105]);
}

#[test]
fn subtraction() {
    let a = Matrix::new(vec![45, 2, 65, 899, 6, 61], (3, 2)).expect("Impossible");
    let b = Matrix::new(vec![4, 87, 2, 99, 12, 44], (3, 2)).expect("Impossible");

    let diff = a.sub(&b).expect("Impossible");
    assert_eq!(diff.order(), (3, 2));
    assert_eq!(diff.items(), vec![41, -85, 63, 800, -6, 17]);
}

#[test]
fn multiplication() {
    let a = Matrix::new(vec![4, 87, 2, 99, 12, 44], (3, 2)).expect("Impossible");

    let scalar_mul = a.scale(5);
    assert_eq!(scalar_mul.order(), (3, 2));
    assert_eq!(scalar_mul.items(), vec![20, 435, 10, 495, 60, 220]);

    let b = Matrix::new(vec![45, 2, 65, 899, 6, 61], (2, 3)).expect("Impossible");

    let matrix_mul = a.mul(&b).expect("Impossible");
    assert_eq!(matrix_mul.order(), (3, 3));
    assert_eq!(
        matrix_mul.items(),
        vec![78393, 530, 5567, 89091, 598, 6169, 40096, 288, 3464]
    );

    let matrix = Matrix::new(vec![1, 6, 4, 2, 5, 7, 4, 2, 9], (3, 3)).unwrap();
    let det = matrix.to_determinant().unwrap();
    assert!(det.value_fits());
    let det_value = det.value() as f64;
    let adjoint = matrix.adjoint().unwrap();

    // The inverse has fractional entries, so the division happens in f64;
    // rounding cancels the floating-point noise, as in `1/d * d = 0.99...`.
    let inv: Vec<f64> = adjoint
        .items()
        .iter()
        .map(|&c| c as f64 / det_value)
        .collect();
    let m = matrix.items();
    let mut product_rounded: Vec<f64> = Vec::new();
    for i in 0..3 {
        for j in 0..3 {
            let mut sum = 0.0f64;
            for t in 0..3 {
                sum += m[i * 3 + t] as f64 * inv[t * 3 + j];
            }
            product_rounded.push(sum.round());
        }
    }
    let identity: Vec<f64> = Matrix::identity_matrix(3)
        .items()
        .iter()
        .map(|&c| c as f64)
        .collect();
    assert_eq!(product_rounded, identity);
}

#[test]
fn construction_checks_the_order() {
    let matrix = Matrix::new(vec![1, 2, 3, 4, 5, 6], (3, 2));
    let invalid_matrix = Matrix::new(vec![1, 2, 3], (3, 2));

    assert_eq!(matrix.is_ok(), true);
    assert_eq!(matrix.unwrap().order(), (3, 2));
    assert_eq!(
        invalid_matrix.err(),
        Some(Errors::InappropriateNumberOfItems)
    );
}

#[test]
fn generate_fills_row_by_row() {
    let function_generated = Matrix::generate(|i, j| (i * i + 3 * j) as i64 - 7, (5, 5));

    assert_eq!(function_generated.get(1, 1).unwrap(), -3);
    assert_eq!(function_generated.get(2, 1).unwrap(), 0);
    assert_eq!(function_generated.get(3, 3).unwrap(), 11);
    assert_eq!(function_generated.get(4, 3).unwrap(), 18);
}

#[test]
fn built_in_matrices() {
    let row_matrix = Matrix::row_matrix(vec![1, 2, 3, 4, 5, 6, 7]);
    assert_eq!(row_matrix.get(1, 5).unwrap(), 5);
    assert_eq!(row_matrix.get(2, 5).is_err(), true);

    let column_matrix = Matrix::column_matrix(vec![1, 2, 3, 4, 5, 6]);
    assert_eq!(column_matrix.get(3, 1).unwrap(), 3);
    assert_eq!(column_matrix.get(3, 5).is_err(), true);

    let null_matrix = Matrix::null_matrix((10, 10));
    assert_eq!(null_matrix.get(5, 5).unwrap(), 0);
    assert_eq!(null_matrix.get(10, 10).unwrap(), 0);
    assert_eq!(null_matrix.get(9, 6).unwrap(), 0);

    let square_matrix = Matrix::square_matrix(vec![1, 2, 3, 4]);
    let invalid_square_matrix = Matrix::square_matrix(vec![1, 2, 3]);

    assert_eq!(square_matrix.unwrap().order(), (2, 2));
    assert_eq!(
        invalid_square_matrix.err(),
        Some(Errors::InappropriateNumberOfItems)
    );

    let diagonal_matrix = Matrix::diagonal_matrix(vec![1, 2, 3, 4, 5, 6, 7, 8]);
    assert_eq!(diagonal_matrix.order(), (8, 8));
    assert_eq!(diagonal_matrix.get(4, 5).unwrap(), 0);
    assert_eq!(diagonal_matrix.get(5, 5).unwrap(), 5);
    assert_eq!(diagonal_matrix.get(7, 8).unwrap(), 0);

    let scalar_matrix = Matrix::scalar_matrix(5, 6);
    assert_eq!(scalar_matrix.order(), (6, 6));
    assert_eq!(scalar_matrix.get(3, 4).unwrap(), 0);
    assert_eq!(scalar_matrix.get(5, 5).unwrap(), 5);
    assert_eq!(scalar_matrix.get(3, 3).unwrap(), 5);

    let identity_matrix = Matrix::identity_matrix(5);
    assert_eq!(identity_matrix.order(), (5, 5));
    assert_eq!(identity_matrix.get(3, 4).unwrap(), 0);
    assert_eq!(identity_matrix.get(5, 5).unwrap(), 1);
    assert_eq!(identity_matrix.get(3, 3).unwrap(), 1);
}

#[test]
fn traces_come_from_square_matrices_only() {
    let random_matrix = Matrix::new(
        vec![6, 4, 87, 3, 6, 89, 6, 8, 4, 2, 45, 2, 5, 7, 9, 9],
        (4, 4),
    )
    .unwrap();
    let trace = random_matrix.trace().unwrap();
    assert_eq!(trace, vec![6, 89, 45, 9]);

    let no_trace_matrix = Matrix::new(vec![6, 4, 87, 3, 6, 89, 6, 8, 4, 2, 45, 2, 5, 7, 9], (5, 3))
        .unwrap();
    assert_eq!(
        no_trace_matrix.trace().err(),
        Some(Errors::TraceExistsOnlyForSquareMatrices)
    );
}

#[test]
fn rows_and_columns_read_back() {
    let matrix = Matrix::new(vec![6, 4, 87, 3, 6, 89, 6, 8, 4, 2, 45, 2, 5, 7, 9], (5, 3)).unwrap();

    assert_eq!(matrix.get_row(1).unwrap(), vec![6, 4, 87]);
    assert_eq!(matrix.get_column(1).unwrap(), vec![6, 3, 6, 2, 5]);
    assert_eq!(matrix.get_column(2).unwrap(), vec![4, 6, 8, 45, 7]);
    assert_eq!(matrix.get(3, 2).unwrap(), 8);
    assert_eq!(matrix.get(5, 1).unwrap(), 5);

    assert_eq!(matrix.get_row(0).err(), Some(Errors::IndexOutOfRange));
    assert_eq!(matrix.get_row(6).err(), Some(Errors::IndexOutOfRange));
    assert_eq!(matrix.get_column(0).err(), Some(Errors::IndexOutOfRange));
    assert_eq!(matrix.get_column(4).err(), Some(Errors::IndexOutOfRange));
}

#[test]
fn get_and_set_round_trip_and_reject_bad_coordinates() {
    let mut matrix =
        Matrix::new(vec![6, 4, 87, 3, 6, 89, 6, 8, 4, 2, 45, 2, 5, 7, 9], (5, 3)).unwrap();

    assert_eq!(matrix.get(0, 1).err(), Some(Errors::IndexOutOfRange));
    assert_eq!(matrix.get(1, 0).err(), Some(Errors::IndexOutOfRange));
    assert_eq!(matrix.get(6, 1).err(), Some(Errors::IndexOutOfRange));
    assert_eq!(matrix.get(1, 4).err(), Some(Errors::IndexOutOfRange));

    assert_eq!(matrix.set(0, 1, 7).err(), Some(Errors::IndexOutOfRange));
    assert_eq!(matrix.set(1, 0, 7).err(), Some(Errors::IndexOutOfRange));
    assert_eq!(matrix.set(6, 1, 7).err(), Some(Errors::IndexOutOfRange));
    assert_eq!(matrix.set(1, 4, 7).err(), Some(Errors::IndexOutOfRange));

    assert_eq!(matrix.get(5, 1).unwrap(), 5);
    matrix.set(5, 1, 99).unwrap();
    assert_eq!(matrix.get(5, 1).unwrap(), 99);
    assert_eq!(matrix.get(5, 2).unwrap(), 7);
    assert_eq!(matrix.get(4, 1).unwrap(), 2);
}

#[test]
fn transpose_swaps_rows_and_columns() {
    let matrix = Matrix::new(vec![1, 2, 3, 4, 5, 6], (2, 3)).unwrap();
    let transpose = matrix.transpose();
    assert_eq!(transpose.order(), (3, 2));
    assert_eq!(transpose.items(), vec![1, 4, 2, 5, 3, 6]);

    let twice = transpose.transpose();
    assert_eq!(twice.order(), (2, 3));
    assert_eq!(twice.items(), matrix.items());
}

#[test]
fn horizontal_and_vertical_shapes() {
    let horizontal_matrix = Matrix::null_matrix((5, 10));
    assert!(horizontal_matrix.is_horizontal());
    assert!(!horizontal_matrix.is_vertical());

    let vertical_matrix = Matrix::null_matrix((10, 5));
    assert!(vertical_matrix.is_vertical());
    assert!(!vertical_matrix.is_horizontal());
}

#[test]
fn mismatched_orders_are_rejected() {
    let a = Matrix::new(vec![1, 2, 3, 4], (2, 2)).unwrap();
    let b = Matrix::new(vec![1, 2, 3, 4, 5, 6], (2, 3)).unwrap();
    assert_eq!(a.add(&b).err(), Some(Errors::IncorrectOrdersForOperation));
    assert_eq!(a.sub(&b).err(), Some(Errors::IncorrectOrdersForOperation));
    assert_eq!(b.mul(&a).err(), Some(Errors::IncorrectOrdersForOperation));
    assert!(a.mul(&b).is_ok());
}

#[test]
fn degenerate_orders() {
    let empty = Matrix::new(vec![], (0, 5)).unwrap();
    assert_eq!(empty.order(), (0, 5));
    assert_eq!(empty.get(1, 1).err(), Some(Errors::IndexOutOfRange));
    assert_eq!(empty.get_row(1).err(), Some(Errors::IndexOutOfRange));

    let zero = Matrix::new(vec![], (0, 0)).unwrap();
    let det = zero.to_determinant().unwrap();
    assert_eq!(det.size(), 0);
    assert_eq!(det.value(), 0);

    let single = Matrix::new(vec![5], (1, 1)).unwrap();
    assert_eq!(single.to_determinant().unwrap().value(), 5);
    assert_eq!(single.trace().unwrap(), vec![5]);
}
