use math_matrix::{Errors, Matrix};

#[test]
fn to_determinant_needs_a_square_order() {
    let matrix = Matrix::new(vec![1, 2, 3, 4, 5, 6, 7, 8, 9], (3, 3)).unwrap();
    let invalid_det_matrix = Matrix::new(vec![1, 2, 3], (3, 1)).unwrap();
    // the item count is a perfect square, yet the order is not
    let invalid2_det_matrix = Matrix::new(vec![1, 2, 3, 4], (1, 4)).unwrap();

    assert_eq!(
        invalid_det_matrix.to_determinant().err(),
        Some(Errors::IncorrectOrdersForOperation)
    );
    assert_eq!(
        invalid2_det_matrix.to_determinant().err(),
        Some(Errors::IncorrectOrdersForOperation)
    );

    let det = matrix.to_determinant().unwrap();
    assert_eq!(det.size(), 3);
    assert_eq!(det.value(), 0);
}

#[test]
fn determinant_snapshots_do_not_track_later_writes() {
    let mut matrix = Matrix::new(vec![1, 2, 3, 4], (2, 2)).unwrap();
    let det = matrix.to_determinant().unwrap();
    matrix.set(1, 1, 100).unwrap();
    assert_eq!(det.value(), -2);
    assert_eq!(matrix.to_determinant().unwrap().value(), 400 - 6);
}

#[test]
fn adjoint_of_a_known_matrix() {
    let matrix = Matrix::new(vec![1, 0, -1, 3, 4, 5, 0, -6, -7], (3, 3)).unwrap();
    let adjoint = matrix.adjoint().unwrap();
    assert_eq!(adjoint.order(), (3, 3));
    assert_eq!(adjoint.items(), vec![2, 6, 4, 21, -7, -8, -18, 6, 4]);

    let not_square = Matrix::new(vec![1, 2, 3, 4, 5, 6], (2, 3)).unwrap();
    assert_eq!(
        not_square.adjoint().err(),
        Some(Errors::IncorrectOrdersForOperation)
    );
}

#[test]
fn adjoint_times_original_is_determinant_times_identity() {
    let matrix = Matrix::new(vec![1, 6, 4, 2, 5, 7, 4, 2, 9], (3, 3)).unwrap();
    let det_value = matrix.to_determinant().unwrap().value();
    let adjoint = matrix.adjoint().unwrap();

    let left = adjoint.mul(&matrix).unwrap();
    let right = matrix.mul(&adjoint).unwrap();
    let scaled_identity = Matrix::identity_matrix(3).scale(det_value);

    assert_eq!(left.items(), scaled_identity.items());
    assert_eq!(right.items(), scaled_identity.items());

    let other = Matrix::new(vec![2, 0, 1, 3, 5, 8, 1, 1, 1], (3, 3)).unwrap();
    let other_det = other.to_determinant().unwrap().value();
    let other_prod = other.adjoint().unwrap().mul(&other).unwrap();
    assert_eq!(
        other_prod.items(),
        Matrix::identity_matrix(3).scale(other_det).items()
    );
}

#[test]
fn inverse_times_original_rounds_to_identity() {
    // the inverse is assembled in f64 from the exact adjugate and
    // determinant, as `adjoint / det`
    let matrix = Matrix::new(vec![1, 6, 4, 2, 5, 7, 4, 2, 9], (3, 3)).unwrap();
    let det = matrix.to_determinant().unwrap();
    assert!(det.value_fits());
    let det_value = det.value();
    assert!(det_value != 0);

    let adjoint = matrix.adjoint().unwrap();
    let inverse: Vec<f64> = adjoint
        .items()
        .iter()
        .map(|&c| c as f64 / det_value as f64)
        .collect();

    let m = matrix.items();
    for i in 0..3 {
        for j in 0..3 {
            let mut sum = 0.0f64;
            for t in 0..3 {
                sum += inverse[i * 3 + t] * m[t * 3 + j] as f64;
            }
            let expected = if i == j { 1.0 } else { 0.0 };
            assert_eq!(sum.round(), expected);
        }
    }
}
