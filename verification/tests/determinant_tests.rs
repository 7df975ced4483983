use math_matrix::{Determinant, Errors};

#[test]
fn value() {
    let d = Determinant::new(vec![1]);
    assert_eq!(d.is_ok(), true);
    let d = d.expect("Impossible");
    assert_eq!(d.value(), 1);

    let d = Determinant::new(vec![1, 2, 3, 4]);
    assert_eq!(d.is_ok(), true);
    let d = d.expect("Impossible");
    assert_eq!(d.value(), -2);

    let d = Determinant::new(vec![1, 2, 3, 4, 5, 6, 7, 8, 9]);
    assert_eq!(d.is_ok(), true);
    let d = d.expect("Impossible");
    assert_eq!(d.value(), 0);

    let d = Determinant::new(vec![1, 3, 5, 9, 1, 3, 1, 7, 4, 3, 9, 7, 5, 2, 0, 9]);
    assert_eq!(d.is_ok(), true);
    let d = d.expect("Impossible");
    assert_eq!(d.value(), -376);

    let d = Determinant::new(vec![
        9, 8, 4, 4, 78, 8, 3, 2, 56, 45, 43, 13, 23, 42, 99, 1, 35, 4, 77, 108, 25, 1, 87, 199, 78,
    ]);
    assert_eq!(d.is_ok(), true);
    let d = d.expect("Impossible");
    assert_eq!(d.value(), -283039494);
}

#[test]
fn construction_succeeds_exactly_on_perfect_squares() {
    for len in 0..30usize {
        let items: Vec<i64> = (0..len as i64).collect();
        let d = Determinant::new(items);
        let root = (0..=len).find(|s| s * s == len);
        match root {
            Some(s) => {
                let d = d.expect("perfect square count must be accepted");
                assert_eq!(d.size() as usize, s);
            }
            None => {
                assert_eq!(d.err(), Some(Errors::InappropriateNumberOfItems));
            }
        }
    }
}

#[test]
fn cofactors_of_small_grids() {
    let det = Determinant::new(vec![1, 2, 3, 4]).unwrap();
    let det3x3 = Determinant::new(vec![1, 2, 3, 4, 5, 6, 7, 8, 9]).unwrap();

    assert_eq!(det.cofactor(1, 1).unwrap(), 4);
    assert_eq!(det.cofactor(1, 2).unwrap(), -3);
    assert_eq!(det.cofactor(2, 1).unwrap(), -2);
    assert_eq!(det.cofactor(2, 2).unwrap(), 1);
    assert_eq!(det3x3.cofactor(1, 2).unwrap(), 6);
}

#[test]
fn cofactor_rejects_out_of_range_coordinates() {
    let det = Determinant::new(vec![1, 2, 3, 4]).unwrap();
    assert_eq!(det.cofactor(0, 1).err(), Some(Errors::IndexOutOfRange));
    assert_eq!(det.cofactor(1, 0).err(), Some(Errors::IndexOutOfRange));
    assert_eq!(det.cofactor(3, 1).err(), Some(Errors::IndexOutOfRange));
    assert_eq!(det.cofactor(1, 3).err(), Some(Errors::IndexOutOfRange));
}

#[test]
fn value_fits_reports_the_overflow_bound() {
    let small = Determinant::new(vec![1, 2, 3, 4, 5, 6, 7, 8, 9]).unwrap();
    assert!(small.value_fits());

    let big = i64::MAX / 2;
    let huge = Determinant::new(vec![big, big, big, big, big, big, big, big, big]).unwrap();
    assert!(!huge.value_fits());

    let empty = Determinant::new(vec![]).unwrap();
    assert!(empty.value_fits());
    assert_eq!(empty.value(), 0);
}

#[test]
fn value_of_identity_grids_is_one() {
    for n in 1..=5u32 {
        let mut items: Vec<i64> = Vec::new();
        for i in 0..n {
            for j in 0..n {
                items.push(if i == j { 1 } else { 0 });
            }
        }
        let d = Determinant::new(items).unwrap();
        assert_eq!(d.value(), 1);
    }
}

#[test]
fn value_of_grid_with_two_identical_rows_is_zero() {
    let adjacent = Determinant::new(vec![7, 8, 7, 8]).unwrap();
    assert_eq!(adjacent.value(), 0);

    let apart = Determinant::new(vec![1, 2, 3, 4, 5, 6, 1, 2, 3]).unwrap();
    assert_eq!(apart.value(), 0);

    let four = Determinant::new(vec![3, 1, 4, 1, 5, 9, 2, 6, 5, 3, 5, 8, 5, 9, 2, 6]).unwrap();
    assert_eq!(four.value(), 0);
}

#[test]
fn error_messages_name_each_failure() {
    assert_eq!(
        Errors::InappropriateNumberOfItems.message(),
        "Inappropriate number of items"
    );
    assert_eq!(
        Errors::TraceExistsOnlyForSquareMatrices.message(),
        "Traces exists only for square matrices"
    );
    assert_eq!(
        Errors::IncorrectOrdersForOperation.message(),
        "Incorrect orders of matrices for algebric operations"
    );
    assert_eq!(Errors::IndexOutOfRange.message(), "Index out of range");
}
