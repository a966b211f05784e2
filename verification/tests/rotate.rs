use apl::cell::Cell;
use apl::rotate::{reverse, rotate};
use apl::shape::Shape;
use apl::value::ValueP;


fn ints(v: &ValueP) -> Vec<i64> {
    v.cells()
        .iter()
        .map(|c| match c {
            Cell::Int(i) => *i,
            other => panic!("expected ints, got {:?}", other),
        })
        .collect()
}

#[test]
fn test_reverse_vector() {
    let b = ValueP::int_vector(&[1, 2, 3]);
    assert_eq!(ints(&reverse(&b).unwrap()), [3, 2, 1]);
}

#[test]
fn test_reverse_scalar_is_identity() {
    let b = ValueP::scalar_from(Cell::Int(7));
    assert!(reverse(&b).unwrap().is_scalar());
    assert_eq!(ints(&reverse(&b).unwrap()), [7]);
}

#[test]
fn test_reverse_matrix_rows() {
    let shape = Shape::matrix(2, 3);
    let b = ValueP::from_parts(
        shape,
        [1, 2, 3, 4, 5, 6].into_iter().map(Cell::Int).collect(),
    )
    .unwrap();
    assert_eq!(ints(&reverse(&b).unwrap()), [3, 2, 1, 6, 5, 4]);
}

#[test]
fn test_rotate_positive_left() {
    // 1⌽1 2 3 = 2 3 1
    let b = ValueP::int_vector(&[1, 2, 3]);
    let a = ValueP::int_vector(&[1]);
    assert_eq!(ints(&rotate(&a, &b).unwrap()), [2, 3, 1]);
}

#[test]
fn test_rotate_negative_right() {
    // ¯1⌽1 2 3 = 3 1 2
    let b = ValueP::int_vector(&[1, 2, 3]);
    let a = ValueP::int_vector(&[-1]);
    assert_eq!(ints(&rotate(&a, &b).unwrap()), [3, 1, 2]);
}

#[test]
fn test_rotate_by_n_is_identity() {
    let b = ValueP::int_vector(&[1, 2, 3]);
    let a = ValueP::int_vector(&[3]);
    assert_eq!(ints(&rotate(&a, &b).unwrap()), [1, 2, 3]);
    let a = ValueP::int_vector(&[-3]);
    assert_eq!(ints(&rotate(&a, &b).unwrap()), [1, 2, 3]);
}

#[test]
fn test_rotate_per_row() {
    // 1 0⌽ matrix rotates row 0 left, row 1 not at all
    let shape = Shape::matrix(2, 3);
    let b = ValueP::from_parts(
        shape,
        [1, 2, 3, 4, 5, 6].into_iter().map(Cell::Int).collect(),
    )
    .unwrap();
    let a = ValueP::int_vector(&[1, 0]);
    assert_eq!(ints(&rotate(&a, &b).unwrap()), [2, 3, 1, 4, 5, 6]);
}

#[test]
fn test_rotate_per_row_shape_mismatch() {
    let b = ValueP::int_vector(&[1, 2, 3]);
    let a = ValueP::int_vector(&[1, 0]); // wrong length for a vector B
    assert!(rotate(&a, &b).is_err());
}

#[test]
fn test_rotate_axis_moves_left_like_rotate() {
    let a = ValueP::int_vector(&[1]);
    let b = ValueP::int_vector(&[1, 2, 3]);
    let r = apl::rotate::rotate_axis(&a, &b, 0).unwrap();
    assert_eq!(ints(&r), vec![2, 3, 1]);
    let q = rotate(&a, &b).unwrap();
    assert_eq!(ints(&q), ints(&r));
}
